//! Spreading mesh data over the chunks that the device program binds.
//!
//! Meshes are placed in the order of the scene. Each goes to the first chunk
//! that still has room for it, behind what that chunk holds already; the first
//! word of a chunk is the number of its meshes. No chunk grows beyond its
//! capacity, and a mesh is never split.

use vstd::prelude::*;
use crate::gpu::{capped, GpuError};
use crate::scalar::Scalar;

verus! {

/// Where a mesh lies: the chunk, and the word of the chunk at which its data
/// starts.
#[derive(Clone, Copy, Debug, PartialEq, Eq, Structural)]
pub struct MeshSlot {
    pub chunk: usize,
    pub offset: usize,
}

/// The placement of a list of meshes.
pub struct Packing {
    /// Chunk of each mesh.
    pub chunk_of: Seq<int>,
    /// First word of each mesh within its chunk.
    pub offset_of: Seq<int>,
    /// Words in use in each chunk, the leading count included.
    pub used: Seq<int>,
}

/// The first chunk at or after `from` in which `size` more words fit.
pub open spec fn first_fit_from(used: Seq<int>, size: int, capacity: int, from: int) -> Option<
    int,
>
    decreases used.len() - from,
{
    if from < 0 || from >= used.len() {
        None
    } else if used[from] + size <= capacity {
        Some(from)
    } else {
        first_fit_from(used, size, capacity, from + 1)
    }
}

/// The first chunk in which `size` more words fit.
pub open spec fn first_fit(used: Seq<int>, size: int, capacity: int) -> Option<int> {
    first_fit_from(used, size, capacity, 0)
}

/// The placement of meshes of the given sizes into `chunks` chunks of
/// `capacity` words, or `None` where some mesh finds no room.
pub open spec fn packing(sizes: Seq<usize>, chunks: nat, capacity: int) -> Option<Packing>
    decreases sizes.len(),
{
    if sizes.len() == 0 {
        Some(
            Packing {
                chunk_of: Seq::empty(),
                offset_of: Seq::empty(),
                used: Seq::new(chunks, |c: int| 1int),
            },
        )
    } else {
        match packing(sizes.drop_last(), chunks, capacity) {
            None => None,
            Some(p) => match first_fit(p.used, sizes.last() as int, capacity) {
                None => None,
                Some(c) => Some(
                    Packing {
                        chunk_of: p.chunk_of.push(c),
                        offset_of: p.offset_of.push(p.used[c]),
                        used: p.used.update(c, p.used[c] + sizes.last()),
                    },
                ),
            },
        }
    }
}

/// What `first_fit_from` finds is a chunk at or after `from` with room, and no
/// chunk between `from` and it has room.
pub proof fn lemma_first_fit(used: Seq<int>, size: int, capacity: int, from: int)
    requires
        0 <= from,
    ensures
        match first_fit_from(used, size, capacity, from) {
            Some(c) => {
                &&& from <= c < used.len()
                &&& used[c] + size <= capacity
                &&& forall|k: int| from <= k < c ==> used[k] + size > capacity
            },
            None => forall|k: int| from <= k < used.len() ==> used[k] + size > capacity,
        },
    decreases used.len() - from,
{
    if from < used.len() && !(used[from] + size <= capacity) {
        lemma_first_fit(used, size, capacity, from + 1);
    }
}

/// A placement places every mesh, keeps the number of chunks, and holds every
/// chunk to the capacity: a chunk holds its count alone or no more than
/// `capacity` words. Each mesh lies within its chunk, behind the count.
pub proof fn lemma_packing_bounds(sizes: Seq<usize>, chunks: nat, capacity: int)
    requires
        packing(sizes, chunks, capacity).is_some(),
    ensures
        ({
            let p = packing(sizes, chunks, capacity).unwrap();
            &&& p.chunk_of.len() == sizes.len()
            &&& p.offset_of.len() == sizes.len()
            &&& p.used.len() == chunks
            &&& forall|c: int| 0 <= c < chunks ==> 1 <= #[trigger] p.used[c]
            &&& forall|c: int| 0 <= c < chunks ==> #[trigger] p.used[c] <= capacity || p.used[c] == 1
            &&& forall|j: int|
                0 <= j < sizes.len() ==> {
                    &&& 0 <= #[trigger] p.chunk_of[j] < chunks
                    &&& 1 <= p.offset_of[j]
                    &&& p.offset_of[j] + sizes[j] <= p.used[p.chunk_of[j]]
                }
        }),
    decreases sizes.len(),
{
    if sizes.len() > 0 {
        let head = sizes.drop_last();
        lemma_packing_bounds(head, chunks, capacity);
        let q = packing(head, chunks, capacity).unwrap();
        lemma_first_fit(q.used, sizes.last() as int, capacity, 0);
        let c = first_fit(q.used, sizes.last() as int, capacity).unwrap();
        let p = packing(sizes, chunks, capacity).unwrap();
        assert forall|j: int| 0 <= j < sizes.len() implies {
            &&& 0 <= #[trigger] p.chunk_of[j] < chunks
            &&& 1 <= p.offset_of[j]
            &&& p.offset_of[j] + sizes[j] <= p.used[p.chunk_of[j]]
        } by {
            if j < head.len() {
                assert(p.chunk_of[j] == q.chunk_of[j]);
                assert(p.offset_of[j] == q.offset_of[j]);
                assert(head[j] == sizes[j]);
                assert(q.used[q.chunk_of[j]] <= p.used[q.chunk_of[j]]);
            }
        }
    }
}

/// Two meshes of one chunk do not overlap: the earlier one ends before the
/// later one starts.
pub proof fn lemma_packing_disjoint(sizes: Seq<usize>, chunks: nat, capacity: int, i: int, j: int)
    requires
        packing(sizes, chunks, capacity).is_some(),
        0 <= i < j < sizes.len(),
        packing(sizes, chunks, capacity).unwrap().chunk_of[i] == packing(
            sizes,
            chunks,
            capacity,
        ).unwrap().chunk_of[j],
    ensures
        ({
            let p = packing(sizes, chunks, capacity).unwrap();
            p.offset_of[i] + sizes[i] <= p.offset_of[j]
        }),
    decreases sizes.len(),
{
    let head = sizes.drop_last();
    let q = packing(head, chunks, capacity).unwrap();
    let p = packing(sizes, chunks, capacity).unwrap();
    lemma_packing_bounds(head, chunks, capacity);
    if j < head.len() {
        assert(p.chunk_of[i] == q.chunk_of[i]);
        assert(p.chunk_of[j] == q.chunk_of[j]);
        lemma_packing_disjoint(head, chunks, capacity, i, j);
        assert(head[i] == sizes[i]);
    } else {
        assert(p.chunk_of[i] == q.chunk_of[i]);
        assert(p.offset_of[i] == q.offset_of[i]);
        assert(head[i] == sizes[i]);
    }
}

/// The placement of the first `n` meshes is the first part of the placement
/// of all of them.
pub proof fn lemma_packing_prefix(sizes: Seq<usize>, chunks: nat, capacity: int, n: int)
    requires
        packing(sizes, chunks, capacity).is_some(),
        0 <= n <= sizes.len(),
    ensures
        packing(sizes.subrange(0, n), chunks, capacity).is_some(),
        ({
            let p = packing(sizes, chunks, capacity).unwrap();
            let q = packing(sizes.subrange(0, n), chunks, capacity).unwrap();
            &&& q.chunk_of == p.chunk_of.subrange(0, n)
            &&& q.offset_of == p.offset_of.subrange(0, n)
        }),
    decreases sizes.len() - n,
{
    lemma_packing_bounds(sizes, chunks, capacity);
    if n == sizes.len() {
        assert(sizes.subrange(0, n) == sizes);
        let p = packing(sizes, chunks, capacity).unwrap();
        assert(p.chunk_of.subrange(0, n) == p.chunk_of);
        assert(p.offset_of.subrange(0, n) == p.offset_of);
    } else {
        let head = sizes.drop_last();
        lemma_packing_prefix(head, chunks, capacity, n);
        assert(head.subrange(0, n) == sizes.subrange(0, n));
        let p = packing(sizes, chunks, capacity).unwrap();
        let h = packing(head, chunks, capacity).unwrap();
        lemma_packing_bounds(head, chunks, capacity);
        assert(h.chunk_of.subrange(0, n) == p.chunk_of.subrange(0, n));
        assert(h.offset_of.subrange(0, n) == p.offset_of.subrange(0, n));
    }
}

/// The slots as the placement states them.
pub open spec fn slots_match(slots: Seq<MeshSlot>, p: Packing) -> bool {
    &&& slots.len() == p.chunk_of.len()
    &&& slots.len() == p.offset_of.len()
    &&& forall|j: int|
        0 <= j < slots.len() ==> (#[trigger] slots[j]).chunk == p.chunk_of[j] && slots[j].offset
            == p.offset_of[j]
}

/// Finds the first chunk in which `size` more words fit.
fn find_room(used: &Vec<usize>, size: usize, capacity: usize) -> (r: Option<usize>)
    ensures
        match r {
            Some(c) => first_fit(used@.map_values(|u: usize| u as int), size as int, capacity as int)
                == Some(c as int),
            None => first_fit(used@.map_values(|u: usize| u as int), size as int, capacity as int)
                .is_none(),
        },
{
    let ghost model = used@.map_values(|u: usize| u as int);
    let n = used.len();
    let mut c: usize = 0;
    while c < n
        invariant
            n == used@.len(),
            0 <= c <= n,
            model == used@.map_values(|u: usize| u as int),
            first_fit(model, size as int, capacity as int) == first_fit_from(
                model,
                size as int,
                capacity as int,
                c as int,
            ),
        decreases n - c,
    {
        assert(model[c as int] == used@[c as int]);
        if used[c] <= capacity && size <= capacity - used[c] {
            return Some(c);
        }
        c += 1;
    }
    None
}

/// Whether every mesh fits a chunk of its own, behind the count.
pub open spec fn each_fits(sizes: Seq<usize>, capacity: int) -> bool {
    forall|j: int| 0 <= j < sizes.len() ==> 1 + #[trigger] sizes[j] <= capacity
}

/// Whether every chunk holds a mesh already: more than its count alone.
pub open spec fn all_in_use(used: Seq<int>) -> bool {
    forall|c: int| 0 <= c < used.len() ==> #[trigger] used[c] > 1
}

/// Places meshes of the given sizes, in words, into `chunks` chunks of
/// `capacity` words each. Every mesh must fit a chunk of its own; the
/// placement fails at the first mesh for which the chunks have run out.
pub fn plan_chunks(sizes: &Vec<usize>, chunks: usize, capacity: usize) -> (r: Result<
    Vec<MeshSlot>,
    GpuError,
>)
    requires
        each_fits(sizes@, capacity as int),
    ensures
        match r {
            Ok(slots) => {
                &&& packing(sizes@, chunks as nat, capacity as int) matches Some(p)
                &&& slots_match(slots@, p)
            },
            Err(GpuError::NoRoom(j)) => {
                &&& j < sizes@.len()
                &&& packing(sizes@.subrange(0, j as int), chunks as nat, capacity as int) matches Some(
                    p,
                )
                &&& all_in_use(p.used)
                &&& packing(sizes@.subrange(0, j + 1), chunks as nat, capacity as int).is_none()
            },
            Err(_) => false,
        },
{
    let n = sizes.len();
    let mut used: Vec<usize> = vec![1usize; chunks];
    let mut slots: Vec<MeshSlot> = Vec::new();
    let mut j: usize = 0;
    assert(sizes@.subrange(0, 0).len() == 0);
    assert(used@.map_values(|u: usize| u as int) == Seq::new(chunks as nat, |c: int| 1int));
    while j < n
        invariant
            n == sizes@.len(),
            0 <= j <= n,
            used@.len() == chunks,
            each_fits(sizes@, capacity as int),
            packing(sizes@.subrange(0, j as int), chunks as nat, capacity as int) matches Some(p)
                && p.used == used@.map_values(|u: usize| u as int) && slots_match(slots@, p),
        decreases n - j,
    {
        let size = sizes[j];
        let ghost before = packing(
            sizes@.subrange(0, j as int),
            chunks as nat,
            capacity as int,
        ).unwrap();
        proof {
            let grown = sizes@.subrange(0, j + 1);
            assert(grown.drop_last() == sizes@.subrange(0, j as int));
            assert(grown.last() == size);
            lemma_first_fit(before.used, size as int, capacity as int, 0);
        }
        match find_room(&used, size, capacity) {
            None => {
                proof {
                    lemma_packing_bounds(
                        sizes@.subrange(0, j as int),
                        chunks as nat,
                        capacity as int,
                    );
                    assert(1 + sizes@[j as int] <= capacity);
                }
                return Err(GpuError::NoRoom(j));
            },
            Some(c) => {
                assert(before.used[c as int] == used@[c as int]);
                let offset = used[c];
                let ghost earlier = slots@;
                slots.push(MeshSlot { chunk: c, offset });
                used.set(c, offset + size);
                proof {
                    let after = packing(
                        sizes@.subrange(0, j + 1),
                        chunks as nat,
                        capacity as int,
                    ).unwrap();
                    assert(after.used =~= used@.map_values(|u: usize| u as int));
                    assert(after.chunk_of == before.chunk_of.push(c as int));
                    assert(after.offset_of == before.offset_of.push(offset as int));
                    assert forall|k: int| 0 <= k < slots@.len() implies (#[trigger] slots@[k]).chunk
                        == after.chunk_of[k] && slots@[k].offset == after.offset_of[k] by {
                        if k < earlier.len() {
                            assert(slots@[k] == earlier[k]);
                        }
                    }
                }
            },
        }
        j += 1;
    }
    assert(sizes@.subrange(0, n as int) == sizes@);
    Ok(slots)
}

/// Number of meshes that lie in chunk `c`.
pub open spec fn count_in(chunk_of: Seq<int>, c: int) -> nat
    decreases chunk_of.len(),
{
    if chunk_of.len() == 0 {
        0
    } else {
        count_in(chunk_of.drop_last(), c) + if chunk_of.last() == c {
            1nat
        } else {
            0nat
        }
    }
}

/// The sizes of the meshes, in words.
pub open spec fn sizes_of(meshes: Seq<Vec<u32>>) -> Seq<usize> {
    meshes.map_values(|m: Vec<u32>| m.len())
}

/// Whether every mesh lies whole at its offset in its chunk, behind the count.
pub open spec fn meshes_in_place(buffers: Seq<Vec<u32>>, meshes: Seq<Vec<u32>>, p: Packing) -> bool {
    forall|j: int|
        0 <= j < meshes.len() ==> {
            &&& 0 <= p.chunk_of[j] < buffers.len()
            &&& 1 <= p.offset_of[j]
            &&& p.offset_of[j] + meshes[j]@.len() <= buffers[p.chunk_of[j]]@.len()
            &&& buffers[p.chunk_of[j]]@.subrange(
                p.offset_of[j],
                p.offset_of[j] + meshes[j]@.len(),
            ) == (#[trigger] meshes[j])@
        }
}

/// Whether `buffers` hold `meshes` as the placement `p` states: every chunk
/// as long as the placement says, with the number of its meshes in its first
/// word, and every mesh whole at its offset in its chunk.
pub open spec fn holds_meshes(buffers: Seq<Vec<u32>>, meshes: Seq<Vec<u32>>, p: Packing) -> bool {
    &&& buffers.len() == p.used.len()
    &&& forall|c: int|
        0 <= c < buffers.len() ==> {
            &&& (#[trigger] buffers[c])@.len() == p.used[c]
            &&& (Scalar { bits: buffers[c]@[0] }).is_count(capped(count_in(p.chunk_of, c)))
        }
    &&& meshes_in_place(buffers, meshes, p)
}

fn append_to(buffers: &mut Vec<Vec<u32>>, c: usize, extra: &Vec<u32>)
    requires
        c < old(buffers)@.len(),
    ensures
        final(buffers)@.len() == old(buffers)@.len(),
        final(buffers)@[c as int]@ == old(buffers)@[c as int]@ + extra@,
        forall|k: int|
            0 <= k < old(buffers)@.len() && k != c ==> final(buffers)@[k] == old(buffers)@[k],
{
    buffers[c].extend_from_slice(extra.as_slice());
}

fn set_head(buffers: &mut Vec<Vec<u32>>, c: usize, word: u32)
    requires
        c < old(buffers)@.len(),
        old(buffers)@[c as int]@.len() >= 1,
    ensures
        final(buffers)@.len() == old(buffers)@.len(),
        final(buffers)@[c as int]@ == old(buffers)@[c as int]@.update(0, word),
        forall|k: int|
            0 <= k < old(buffers)@.len() && k != c ==> final(buffers)@[k] == old(buffers)@[k],
{
    buffers[c].set(0, word);
}

/// Builds the mesh chunks: places the meshes (see [`plan_chunks`]) and copies
/// each to its place. Returns the chunks and, for each mesh, where it lies.
/// Every mesh must fit a chunk of its own.
pub fn pack_meshes(meshes: &Vec<Vec<u32>>, chunks: usize, capacity: usize) -> (r: Result<
    (Vec<Vec<u32>>, Vec<MeshSlot>),
    GpuError,
>)
    requires
        each_fits(sizes_of(meshes@), capacity as int),
    ensures
        match r {
            Ok((buffers, slots)) => {
                &&& packing(sizes_of(meshes@), chunks as nat, capacity as int) matches Some(p)
                &&& slots_match(slots@, p)
                &&& holds_meshes(buffers@, meshes@, p)
            },
            Err(GpuError::NoRoom(j)) => {
                &&& j < meshes@.len()
                &&& packing(
                    sizes_of(meshes@).subrange(0, j as int),
                    chunks as nat,
                    capacity as int,
                ) matches Some(p)
                &&& all_in_use(p.used)
                &&& packing(
                    sizes_of(meshes@).subrange(0, j + 1),
                    chunks as nat,
                    capacity as int,
                ).is_none()
            },
            Err(_) => false,
        },
{
    let n = meshes.len();
    let mut sizes: Vec<usize> = Vec::new();
    let mut j: usize = 0;
    while j < n
        invariant
            n == meshes@.len(),
            0 <= j <= n,
            sizes@ == sizes_of(meshes@).subrange(0, j as int),
        decreases n - j,
    {
        sizes.push(meshes[j].len());
        j += 1;
    }
    assert(sizes@ == sizes_of(meshes@));
    let slots = match plan_chunks(&sizes, chunks, capacity) {
        Ok(slots) => slots,
        Err(e) => {
            return Err(e);
        },
    };
    let ghost p = packing(sizes@, chunks as nat, capacity as int).unwrap();
    let mut buffers: Vec<Vec<u32>> = Vec::new();
    let mut counts: Vec<usize> = Vec::new();
    let mut c: usize = 0;
    while c < chunks
        invariant
            0 <= c <= chunks,
            buffers@.len() == c,
            counts@.len() == c,
            forall|k: int| 0 <= k < c ==> (#[trigger] buffers@[k])@.len() == 1,
            forall|k: int| 0 <= k < c ==> #[trigger] counts@[k] == 0,
        decreases chunks - c,
    {
        let mut row: Vec<u32> = Vec::new();
        row.push(0);
        buffers.push(row);
        counts.push(0);
        c += 1;
    }
    j = 0;
    proof {
        lemma_packing_bounds(sizes@, chunks as nat, capacity as int);
        assert(sizes@.subrange(0, 0).len() == 0);
        assert(p.chunk_of.subrange(0, 0).len() == 0);
    }
    while j < n
        invariant
            n == meshes@.len(),
            0 <= j <= n,
            sizes@ == sizes_of(meshes@),
            packing(sizes@, chunks as nat, capacity as int) == Some(p),
            slots_match(slots@, p),
            p.chunk_of.len() == n,
            p.offset_of.len() == n,
            buffers@.len() == chunks,
            counts@.len() == chunks,
            packing(sizes@.subrange(0, j as int), chunks as nat, capacity as int) matches Some(q)
                && forall|k: int|
                0 <= k < chunks ==> (#[trigger] buffers@[k])@.len() == q.used[k],
            forall|k: int|
                0 <= k < chunks ==> #[trigger] counts@[k] == count_in(
                    p.chunk_of.subrange(0, j as int),
                    k,
                ),
            forall|k: int| 0 <= k < chunks ==> #[trigger] counts@[k] <= j,
            forall|i: int|
                0 <= i < j ==> buffers@[p.chunk_of[i]]@.subrange(
                    p.offset_of[i],
                    p.offset_of[i] + meshes@[i]@.len(),
                ) == (#[trigger] meshes@[i])@,
        decreases n - j,
    {
        let slot = slots[j];
        let size = meshes[j].len();
        let ghost q = packing(sizes@.subrange(0, j as int), chunks as nat, capacity as int).unwrap();
        let ghost before = buffers@;
        proof {
            lemma_packing_bounds(sizes@, chunks as nat, capacity as int);
            lemma_packing_prefix(sizes@, chunks as nat, capacity as int, j + 1);
            lemma_packing_prefix(sizes@, chunks as nat, capacity as int, j as int);
            lemma_packing_bounds(sizes@.subrange(0, j as int), chunks as nat, capacity as int);
            let grown = sizes@.subrange(0, j + 1);
            assert(grown.drop_last() == sizes@.subrange(0, j as int));
            assert(grown.last() == sizes@[j as int]);
            let g = packing(grown, chunks as nat, capacity as int).unwrap();
            assert(g.chunk_of[j as int] == p.chunk_of.subrange(0, j + 1)[j as int]);
            assert(g.offset_of[j as int] == p.offset_of.subrange(0, j + 1)[j as int]);
            lemma_first_fit(q.used, sizes@[j as int] as int, capacity as int, 0);
            assert(slot.chunk == p.chunk_of[j as int]);
            assert(slot.offset == q.used[slot.chunk as int]);
            assert(sizes@[j as int] == size);
            let wider = p.chunk_of.subrange(0, j + 1);
            assert(wider.drop_last() == p.chunk_of.subrange(0, j as int));
            assert(wider.last() == p.chunk_of[j as int]);
        }
        append_to(&mut buffers, slot.chunk, &meshes[j]);
        counts.set(slot.chunk, counts[slot.chunk] + 1);
        proof {
            let g = packing(sizes@.subrange(0, j + 1), chunks as nat, capacity as int).unwrap();
            assert forall|k: int| 0 <= k < chunks implies (#[trigger] buffers@[k])@.len()
                == g.used[k] by {
                if k != slot.chunk {
                    assert(buffers@[k] == before[k]);
                }
            }
            assert forall|i: int| 0 <= i < j + 1 implies buffers@[p.chunk_of[i]]@.subrange(
                p.offset_of[i],
                p.offset_of[i] + meshes@[i]@.len(),
            ) == (#[trigger] meshes@[i])@ by {
                if i < j {
                    let ci = p.chunk_of[i];
                    assert(q.chunk_of[i] == p.chunk_of.subrange(0, j as int)[i]);
                    assert(q.offset_of[i] == p.offset_of.subrange(0, j as int)[i]);
                    assert(sizes@.subrange(0, j as int)[i] == meshes@[i].len());
                    assert(p.offset_of[i] + meshes@[i]@.len() <= q.used[ci]);
                    if ci == slot.chunk {
                        assert(buffers@[ci]@.subrange(
                            p.offset_of[i],
                            p.offset_of[i] + meshes@[i]@.len(),
                        ) == before[ci]@.subrange(
                            p.offset_of[i],
                            p.offset_of[i] + meshes@[i]@.len(),
                        ));
                    } else {
                        assert(buffers@[ci] == before[ci]);
                    }
                } else {
                    assert(buffers@[slot.chunk as int]@.subrange(
                        slot.offset as int,
                        slot.offset + meshes@[j as int]@.len(),
                    ) == meshes@[j as int]@);
                }
            }
        }
        j += 1;
    }
    proof {
        assert(sizes@.subrange(0, n as int) == sizes@);
        assert(p.chunk_of.subrange(0, n as int) == p.chunk_of) by {
            lemma_packing_bounds(sizes@, chunks as nat, capacity as int);
        }
        lemma_packing_bounds(sizes@, chunks as nat, capacity as int);
        assert forall|i: int| 0 <= i < meshes@.len() implies p.offset_of[i] + (
        #[trigger] meshes@[i])@.len() <= buffers@[p.chunk_of[i]]@.len() by {
            assert(sizes@[i] == meshes@[i].len());
            assert(buffers@[p.chunk_of[i]]@.subrange(
                p.offset_of[i],
                p.offset_of[i] + meshes@[i]@.len(),
            ).len() == meshes@[i]@.len());
        }
    }
    c = 0;
    let ghost filled = buffers@;
    assert(meshes_in_place(filled, meshes@, p));
    while c < chunks
        invariant
            0 <= c <= chunks,
            buffers@.len() == chunks,
            counts@.len() == chunks,
            filled.len() == chunks,
            forall|k: int| 0 <= k < chunks ==> (#[trigger] filled[k])@.len() == p.used[k],
            forall|k: int| 0 <= k < chunks ==> (#[trigger] filled[k])@.len() >= 1,
            meshes_in_place(filled, meshes@, p),
            forall|k: int|
                0 <= k < chunks ==> #[trigger] counts@[k] == count_in(p.chunk_of, k),
            forall|k: int|
                0 <= k < c ==> (#[trigger] buffers@[k])@ == filled[k]@.update(
                    0,
                    buffers@[k]@[0],
                ) && (Scalar { bits: buffers@[k]@[0] }).is_count(
                    capped(count_in(p.chunk_of, k)),
                ),
            forall|k: int| c <= k < chunks ==> #[trigger] buffers@[k] == filled[k],
        decreases chunks - c,
    {
        let head = Scalar::from_count(counts[c]).to_bits();
        set_head(&mut buffers, c, head);
        c += 1;
    }
    proof {
        assert forall|j: int| 0 <= j < meshes@.len() implies {
            &&& 0 <= p.chunk_of[j] < buffers@.len()
            &&& 1 <= p.offset_of[j]
            &&& p.offset_of[j] + meshes@[j]@.len() <= buffers@[p.chunk_of[j]]@.len()
            &&& buffers@[p.chunk_of[j]]@.subrange(
                p.offset_of[j],
                p.offset_of[j] + meshes@[j]@.len(),
            ) == (#[trigger] meshes@[j])@
        } by {
            let cj = p.chunk_of[j];
            assert(buffers@[cj]@ == filled[cj]@.update(0, buffers@[cj]@[0]));
            assert(buffers@[cj]@.subrange(p.offset_of[j], p.offset_of[j] + meshes@[j]@.len())
                == filled[cj]@.subrange(p.offset_of[j], p.offset_of[j] + meshes@[j]@.len()));
        }
        assert forall|k: int| 0 <= k < buffers@.len() implies {
            &&& (#[trigger] buffers@[k])@.len() == p.used[k]
            &&& (Scalar { bits: buffers@[k]@[0] }).is_count(capped(count_in(p.chunk_of, k)))
        } by {
            assert(buffers@[k]@ == filled[k]@.update(0, buffers@[k]@[0]));
        }
    }
    Ok((buffers, slots))
}

} // verus!
