//! The addresses that samples are drawn from.
use crate::model::SampledBlockGroup;
use std::collections::HashSet;
use vstd::prelude::*;

verus! {

/// A chunk of the file system: one copy of a stretch of logical addresses on a device.
#[derive(Debug, Clone, Copy)]
pub struct Chunk {
    pub logical_start: u64,
    pub length: u64,
    pub is_data: bool,
    pub is_metadata: bool,
    pub is_system: bool,
    pub devid: u64,
    pub physical_start: u64,
}

/// The block group that a chunk is a copy of.
pub open spec fn group_of(chunk: Chunk) -> SampledBlockGroup {
    SampledBlockGroup {
        logical_start: chunk.logical_start,
        length: chunk.length,
        is_data: chunk.is_data,
        is_metadata: chunk.is_metadata,
        is_system: chunk.is_system,
        phys_devid: Some(chunk.devid),
        phys_start: Some(chunk.physical_start),
    }
}

/// Some chunk starts at the logical address `start`.
pub open spec fn starts_at(chunks: Seq<Chunk>, start: u64) -> bool {
    exists|i: int| 0 <= i < chunks.len() && (#[trigger] chunks[i]).logical_start == start
}

/// The block groups of the chunks: of the chunks with one logical address the first
/// counts.
pub open spec fn groups_of(chunks: Seq<Chunk>) -> Seq<SampledBlockGroup>
    decreases chunks.len(),
{
    if chunks.len() == 0 {
        Seq::empty()
    } else {
        let before = groups_of(chunks.drop_last());
        if starts_at(chunks.drop_last(), chunks.last().logical_start) {
            before
        } else {
            before.push(group_of(chunks.last()))
        }
    }
}

/// The lengths of the block groups, added up.
pub open spec fn total_length(groups: Seq<SampledBlockGroup>) -> nat
    decreases groups.len(),
{
    if groups.len() == 0 {
        0
    } else {
        total_length(groups.drop_last()) + groups.last().length as nat
    }
}

/// A part of the block groups is not longer than all of them.
pub proof fn lemma_total_length_prefix(groups: Seq<SampledBlockGroup>, i: int, j: int)
    requires
        0 <= i <= j <= groups.len(),
    ensures
        total_length(groups.take(i)) <= total_length(groups.take(j)),
    decreases j - i,
{
    if i < j {
        lemma_total_length_prefix(groups, i, j - 1);
        assert(groups.take(j).drop_last() =~= groups.take(j - 1));
    }
}

/// One block group more.
pub proof fn lemma_total_length_step(groups: Seq<SampledBlockGroup>, i: int)
    requires
        0 <= i < groups.len(),
    ensures
        total_length(groups.take(i + 1)) == total_length(groups.take(i)) + groups[i].length,
{
    assert(groups.take(i + 1).drop_last() =~= groups.take(i));
}

/// The block groups that the chunks are copies of.
pub fn block_groups(chunks: &Vec<Chunk>) -> (r: Vec<SampledBlockGroup>)
    ensures
        r@ == groups_of(chunks@),
{
    broadcast use vstd::std_specs::hash::group_hash_axioms;

    let mut seen: HashSet<u64> = HashSet::new();
    let mut groups: Vec<SampledBlockGroup> = Vec::new();
    let mut k: usize = 0;
    proof {
        assert(chunks@.take(0) =~= Seq::empty());
    }
    while k < chunks.len()
        invariant
            k <= chunks@.len(),
            groups@ == groups_of(chunks@.take(k as int)),
            forall|start: u64| #[trigger]
                seen@.contains(start) <==> starts_at(chunks@.take(k as int), start),
        decreases chunks@.len() - k,
    {
        let c: Chunk = chunks[k];
        let ghost before = chunks@.take(k as int);
        let ghost now = chunks@.take(k + 1);
        let ghost old_seen = seen@;
        proof {
            assert(now.drop_last() =~= before);
            assert(now.last() == c);
        }
        if seen.insert(c.logical_start) {
            groups.push(
                SampledBlockGroup {
                    logical_start: c.logical_start,
                    length: c.length,
                    is_data: c.is_data,
                    is_metadata: c.is_metadata,
                    is_system: c.is_system,
                    phys_devid: Some(c.devid),
                    phys_start: Some(c.physical_start),
                },
            );
        }
        proof {
            assert forall|start: u64| #[trigger] seen@.contains(start) <==> starts_at(
                now,
                start,
            ) by {
                if starts_at(now, start) {
                    let i = choose|i: int|
                        0 <= i < now.len() && (#[trigger] now[i]).logical_start == start;
                    if i < k {
                        assert(before[i] == now[i]);
                        assert(starts_at(before, start));
                    }
                }
                if starts_at(before, start) {
                    let i = choose|i: int|
                        0 <= i < before.len() && (#[trigger] before[i]).logical_start == start;
                    assert(now[i] == before[i]);
                }
                if start == c.logical_start {
                    assert(now[k as int].logical_start == start);
                }
            }
        }
        k = k + 1;
    }
    proof {
        assert(chunks@.take(chunks@.len() as int) =~= chunks@);
    }
    groups
}

/// The lengths of the block groups added up, if the sum can be held.
pub fn universe_bytes(groups: &Vec<SampledBlockGroup>) -> (r: Option<u64>)
    ensures
        match r {
            Some(total) => total == total_length(groups@),
            None => total_length(groups@) > u64::MAX,
        },
{
    let mut total: u64 = 0;
    let mut k: usize = 0;
    proof {
        assert(groups@.take(0) =~= Seq::empty());
        assert(groups@.take(groups@.len() as int) =~= groups@);
    }
    while k < groups.len()
        invariant
            k <= groups@.len(),
            total == total_length(groups@.take(k as int)),
            groups@.take(groups@.len() as int) == groups@,
        decreases groups@.len() - k,
    {
        proof {
            lemma_total_length_step(groups@, k as int);
            lemma_total_length_prefix(groups@, k + 1, groups@.len() as int);
        }
        match total.checked_add(groups[k].length) {
            Some(sum) => {
                total = sum;
            },
            None => {
                return None;
            },
        }
        k = k + 1;
    }
    Some(total)
}

/// The end of each block group when they are laid end to end.
pub fn cumulative_lengths(groups: &Vec<SampledBlockGroup>) -> (r: Vec<u64>)
    requires
        total_length(groups@) <= u64::MAX,
    ensures
        r@.len() == groups@.len(),
        forall|i: int|
            0 <= i < groups@.len() ==> #[trigger] r@[i] == total_length(groups@.take(i + 1)),
{
    let mut cumulative: Vec<u64> = Vec::new();
    let mut running: u64 = 0;
    let mut k: usize = 0;
    proof {
        assert(groups@.take(0) =~= Seq::empty());
        assert(groups@.take(groups@.len() as int) =~= groups@);
    }
    while k < groups.len()
        invariant
            k <= groups@.len(),
            total_length(groups@) <= u64::MAX,
            groups@.take(groups@.len() as int) == groups@,
            running == total_length(groups@.take(k as int)),
            cumulative@.len() == k,
            forall|i: int|
                0 <= i < k ==> #[trigger] cumulative@[i] == total_length(groups@.take(i + 1)),
        decreases groups@.len() - k,
    {
        proof {
            lemma_total_length_step(groups@, k as int);
            lemma_total_length_prefix(groups@, k + 1, groups@.len() as int);
        }
        running = running + groups[k].length;
        cumulative.push(running);
        k = k + 1;
    }
    cumulative
}

/// Chunk `k` is the first one at its logical address.
pub open spec fn is_first_copy(chunks: Seq<Chunk>, k: int) -> bool {
    &&& 0 <= k < chunks.len()
    &&& forall|j: int| 0 <= j < k ==> (#[trigger] chunks[j]).logical_start != chunks[k].logical_start
}

/// The block group is what the chunk says of it.
pub open spec fn is_group_of(group: SampledBlockGroup, chunk: Chunk) -> bool {
    &&& group.logical_start == chunk.logical_start
    &&& group.length == chunk.length
    &&& group.is_data == chunk.is_data
    &&& group.is_metadata == chunk.is_metadata
    &&& group.is_system == chunk.is_system
    &&& group.phys_devid == Some(chunk.devid)
    &&& group.phys_start == Some(chunk.physical_start)
}

/// Some chunk is the first one at its address and says what the block group is.
pub open spec fn is_from_first_copy(group: SampledBlockGroup, chunks: Seq<Chunk>) -> bool {
    exists|k: int| #[trigger] is_first_copy(chunks, k) && is_group_of(group, chunks[k])
}

/// Some block group is what the chunk says.
pub open spec fn has_group(groups: Seq<SampledBlockGroup>, chunk: Chunk) -> bool {
    exists|i: int| 0 <= i < groups.len() && is_group_of(#[trigger] groups[i], chunk)
}

/// Each block group is what the first chunk at its address says of it, place on the device
/// included, and each such chunk has its block group.
pub proof fn law_first_copy_counts(chunks: Seq<Chunk>)
    ensures
        forall|i: int|
            0 <= i < groups_of(chunks).len() ==> is_from_first_copy(
                #[trigger] groups_of(chunks)[i],
                chunks,
            ),
        forall|k: int| #[trigger]
            is_first_copy(chunks, k) ==> has_group(groups_of(chunks), chunks[k]),
    decreases chunks.len(),
{
    if chunks.len() > 0 {
        let before = chunks.drop_last();
        let last = chunks.len() - 1;
        law_first_copy_counts(before);
        let fewer = groups_of(before);
        let groups = groups_of(chunks);
        lemma_last_first_copy(chunks);
        assert forall|i: int| 0 <= i < groups.len() implies is_from_first_copy(
            #[trigger] groups[i],
            chunks,
        ) by {
            if i < fewer.len() {
                assert(groups[i] == fewer[i]);
                assert(is_from_first_copy(fewer[i], before));
                let k = choose|k: int| #[trigger]
                    is_first_copy(before, k) && is_group_of(fewer[i], before[k]);
                lemma_first_copy_before(chunks, k);
                assert(before[k] == chunks[k]);
            } else {
                assert(groups[i] == group_of(chunks[last]));
                assert(is_first_copy(chunks, last));
                assert(is_group_of(groups[i], chunks[last]));
            }
        }
        assert forall|k: int| #[trigger] is_first_copy(chunks, k) implies has_group(
            groups,
            chunks[k],
        ) by {
            if k < last {
                lemma_first_copy_before(chunks, k);
                assert(before[k] == chunks[k]);
                assert(has_group(fewer, before[k]));
                let i = choose|i: int|
                    0 <= i < fewer.len() && is_group_of(#[trigger] fewer[i], before[k]);
                assert(groups[i] == fewer[i]);
            } else {
                assert(groups[groups.len() - 1] == group_of(chunks[last]));
                assert(is_group_of(groups[groups.len() - 1], chunks[k]));
            }
        }
    }
}

/// A chunk before the last one is the first at its address with the last one or without it.
proof fn lemma_first_copy_before(chunks: Seq<Chunk>, k: int)
    requires
        0 <= k < chunks.len() - 1,
    ensures
        is_first_copy(chunks.drop_last(), k) <==> is_first_copy(chunks, k),
{
    let before = chunks.drop_last();
    if is_first_copy(before, k) {
        assert forall|j: int| 0 <= j < k implies (#[trigger] chunks[j]).logical_start
            != chunks[k].logical_start by {
            assert(before[j].logical_start != before[k].logical_start);
        }
    }
    if is_first_copy(chunks, k) {
        assert forall|j: int| 0 <= j < k implies (#[trigger] before[j]).logical_start
            != before[k].logical_start by {
            assert(chunks[j].logical_start != chunks[k].logical_start);
        }
    }
}

/// The last chunk is the first at its address if none before it starts there.
proof fn lemma_last_first_copy(chunks: Seq<Chunk>)
    requires
        chunks.len() > 0,
    ensures
        is_first_copy(chunks, chunks.len() - 1) <==> !starts_at(
            chunks.drop_last(),
            chunks.last().logical_start,
        ),
{
    let before = chunks.drop_last();
    let last = chunks.len() - 1;
    if starts_at(before, chunks.last().logical_start) {
        let j = choose|j: int|
            0 <= j < before.len() && (#[trigger] before[j]).logical_start
                == chunks.last().logical_start;
        assert(chunks[j].logical_start == chunks[last].logical_start);
    } else {
        assert forall|j: int| 0 <= j < last implies (#[trigger] chunks[j]).logical_start
            != chunks[last].logical_start by {
            assert(before[j] == chunks[j]);
        }
    }
}

/// No two block groups start at one logical address, and each chunk is a copy of one of
/// them: the universe counts every logical address once however many copies there are.
pub proof fn law_each_address_once(chunks: Seq<Chunk>)
    ensures
        forall|i: int, j: int|
            0 <= i < j < groups_of(chunks).len() ==> (#[trigger] groups_of(chunks)[i]).logical_start
                != (#[trigger] groups_of(chunks)[j]).logical_start,
        forall|k: int|
            0 <= k < chunks.len() ==> exists|i: int|
                0 <= i < groups_of(chunks).len() && (#[trigger] groups_of(chunks)[i]).logical_start
                    == (#[trigger] chunks[k]).logical_start,
        forall|i: int|
            0 <= i < groups_of(chunks).len() ==> starts_at(
                chunks,
                (#[trigger] groups_of(chunks)[i]).logical_start,
            ),
    decreases chunks.len(),
{
    if chunks.len() > 0 {
        let before = chunks.drop_last();
        let last = chunks.last();
        law_each_address_once(before);
        let old_groups = groups_of(before);
        let groups = groups_of(chunks);
        assert forall|i: int| 0 <= i < groups.len() implies starts_at(
            chunks,
            (#[trigger] groups[i]).logical_start,
        ) by {
            if i < old_groups.len() {
                assert(groups[i] == old_groups[i]);
                let k = choose|k: int|
                    0 <= k < before.len() && (#[trigger] before[k]).logical_start
                        == old_groups[i].logical_start;
                assert(chunks[k] == before[k]);
            } else {
                assert(chunks[chunks.len() - 1].logical_start == groups[i].logical_start);
            }
        }
        assert forall|k: int| 0 <= k < chunks.len() implies exists|i: int|
            0 <= i < groups.len() && (#[trigger] groups[i]).logical_start == (
            #[trigger] chunks[k]).logical_start by {
            if k < before.len() {
                assert(before[k] == chunks[k]);
                let i = choose|i: int|
                    0 <= i < old_groups.len() && (#[trigger] old_groups[i]).logical_start
                        == before[k].logical_start;
                assert(groups[i] == old_groups[i]);
            } else if starts_at(before, last.logical_start) {
                let j = choose|j: int|
                    0 <= j < before.len() && (#[trigger] before[j]).logical_start
                        == last.logical_start;
                let i = choose|i: int|
                    0 <= i < old_groups.len() && (#[trigger] old_groups[i]).logical_start
                        == before[j].logical_start;
                assert(groups[i] == old_groups[i]);
            } else {
                assert(groups[groups.len() - 1].logical_start == last.logical_start);
            }
        }
        assert forall|i: int, j: int| 0 <= i < j < groups.len() implies (
        #[trigger] groups[i]).logical_start != (#[trigger] groups[j]).logical_start by {
            assert(groups[i] == old_groups[i]);
            if j < old_groups.len() {
                assert(groups[j] == old_groups[j]);
            }
        }
    }
}

} // verus!
