//! What the host hands to the compute device, and what it reads back.
//!
//! Every storage buffer is a list of 32-bit words that starts with the number
//! of its elements, so that no buffer is ever empty. Mesh data is spread over a
//! fixed number of chunks of bounded size. The binding of buffers to the slots
//! of the four bind groups is fixed here, where the device program expects it.

use vstd::prelude::*;
use crate::scalar::{Scalar, COUNT_LIMIT};
use crate::target::RenderTarget;

verus! {

/// Number of mesh chunks that the device program binds.
pub const GPU_NUM_MESH_BUFFERS: usize = 4;

/// Words in a chunk of one GiB.
pub const MESH_CHUNK_WORDS: usize = 0x1000_0000;

/// Bytes that the device must take in one buffer and in one binding: a chunk
/// of one GiB.
pub const REQUIRED_BUFFER_BYTES: u64 = 0x4000_0000;

/// The four bytes of a word, least significant first.
pub open spec fn word_le(w: u32) -> Seq<u8> {
    seq![
        (w % 256) as u8,
        ((w / 0x100) % 256) as u8,
        ((w / 0x1_0000) % 256) as u8,
        (w / 0x100_0000) as u8,
    ]
}

/// The bytes of a list of words, each word least significant byte first.
pub open spec fn words_le(words: Seq<u32>) -> Seq<u8> {
    Seq::new(4 * words.len(), |i: int| word_le(words[i / 4])[i % 4])
}

/// The bytes of a list of words, each word most significant byte first.
pub open spec fn words_be(words: Seq<u32>) -> Seq<u8> {
    Seq::new(4 * words.len(), |i: int| word_le(words[i / 4])[3 - i % 4])
}

/// Whether `bytes` is the memory image of `words` on some machine: every word
/// in the same byte order, little-endian or big-endian.
pub open spec fn is_image_of(bytes: Seq<u8>, words: Seq<u32>) -> bool {
    bytes == words_le(words) || bytes == words_be(words)
}

/// `bytemuck::cast_slice` from words to bytes: the memory image of the words,
/// copied into a vector. For these two types the cast cannot fail: bytes need
/// no alignment and every length fits.
#[verifier::external_body]
fn image_of_words(words: &Vec<u32>) -> (bytes: Vec<u8>)
    ensures
        bytes@.len() == 4 * words@.len(),
        is_image_of(bytes@, words@),
{
    bytemuck::cast_slice::<u32, u8>(words.as_slice()).to_vec()
}

/// `bytemuck::pod_collect_to_vec` from bytes to words: the words whose memory
/// image the bytes are. The function copies, so the bytes need no alignment;
/// with a length that is a multiple of four nothing is padded.
#[verifier::external_body]
pub(crate) fn words_of_image(bytes: &Vec<u8>) -> (words: Vec<u32>)
    requires
        bytes@.len() % 4 == 0,
    ensures
        4 * words@.len() == bytes@.len(),
        is_image_of(bytes@, words@),
{
    bytemuck::pod_collect_to_vec::<u8, u32>(bytes.as_slice())
}

/// The rows one after the other.
pub open spec fn concat(rows: Seq<Seq<u32>>) -> Seq<u32>
    decreases rows.len(),
{
    if rows.len() == 0 {
        Seq::empty()
    } else {
        concat(rows.drop_last()) + rows.last()
    }
}

/// The model of a list of rows.
pub open spec fn rows_view(rows: Seq<Vec<u32>>) -> Seq<Seq<u32>> {
    rows.map_values(|row: Vec<u32>| row@)
}

/// The count that the first word of a buffer of `n` elements holds.
pub open spec fn capped(n: nat) -> nat {
    if n <= COUNT_LIMIT {
        n
    } else {
        COUNT_LIMIT as nat
    }
}

/// Whether `buffer` is a counted buffer: its first word is the number `count`
/// as a binary32 number (never above `COUNT_LIMIT`), the rest is `payload`.
pub open spec fn is_counted(buffer: Seq<u32>, count: nat, payload: Seq<u32>) -> bool {
    &&& buffer.len() == 1 + payload.len()
    &&& (Scalar { bits: buffer[0] }).is_count(capped(count))
    &&& buffer.subrange(1, buffer.len() as int) == payload
}

/// The storage buffer of a list of elements: their number, then the words of
/// each element in turn.
pub fn pack_counted(records: &Vec<Vec<u32>>) -> (r: Vec<u32>)
    ensures
        is_counted(r@, records@.len(), concat(rows_view(records@))),
{
    let n = records.len();
    let head = Scalar::from_count(n).to_bits();
    let mut out: Vec<u32> = Vec::new();
    out.push(head);
    let mut j: usize = 0;
    assert(rows_view(records@).subrange(0, 0).len() == 0);
    while j < n
        invariant
            n == records@.len(),
            0 <= j <= n,
            out@ == seq![head] + concat(rows_view(records@).subrange(0, j as int)),
        decreases n - j,
    {
        proof {
            let grown = rows_view(records@).subrange(0, j + 1);
            assert(grown.drop_last() == rows_view(records@).subrange(0, j as int));
            assert(grown.last() == records@[j as int]@);
        }
        out.extend_from_slice(records[j].as_slice());
        j += 1;
    }
    assert(rows_view(records@).subrange(0, n as int) == rows_view(records@));
    assert(out@.subrange(1, out@.len() as int) == concat(rows_view(records@)));
    out
}

/// The bytes of a storage buffer as the device receives them: the memory
/// image of its words.
pub fn buffer_bytes(words: &Vec<u32>) -> (r: Vec<u8>)
    ensures
        is_image_of(r@, words@),
        r@.len() == 4 * words@.len(),
{
    image_of_words(words)
}

/// What went wrong between host and device.
#[derive(Clone, Copy, Debug, PartialEq, Eq, Structural)]
pub enum GpuError {
    /// The bytes read back are not four words for every pixel.
    ReadbackSize,
    /// A mesh does not fit any chunk; the field is its position in the list.
    NoRoom(usize),
    /// The device takes no buffer, or binds none, of one GiB.
    LimitsInsufficient,
}

/// Whether a device with these limits can hold a mesh chunk: both its largest
/// buffer and its largest storage binding must reach one GiB.
pub fn check_device_limits(max_buffer_size: u64, max_storage_binding_size: u64) -> (r: Result<
    (),
    GpuError,
>)
    ensures
        match r {
            Ok(()) => max_buffer_size >= REQUIRED_BUFFER_BYTES && max_storage_binding_size
                >= REQUIRED_BUFFER_BYTES,
            Err(e) => e == GpuError::LimitsInsufficient && (max_buffer_size < REQUIRED_BUFFER_BYTES
                || max_storage_binding_size < REQUIRED_BUFFER_BYTES),
        },
{
    if max_buffer_size >= REQUIRED_BUFFER_BYTES && max_storage_binding_size
        >= REQUIRED_BUFFER_BYTES {
        Ok(())
    } else {
        Err(GpuError::LimitsInsufficient)
    }
}

/// What the host holds of the device between the steps of a batch: whether a
/// pipeline exists, and whether commands are recorded and not yet submitted.
///
/// The steps come in one order: a pipeline is created, its work is recorded,
/// the commands are submitted, the accumulator is read back. Each step may be
/// taken in the state that the step before leaves, and in no other; the flags
/// are there for the caller to see before it takes a step.
#[derive(Clone, Copy, Debug, PartialEq, Eq, Structural)]
pub struct GpuSession {
    pub has_pipeline: bool,
    pub has_commands: bool,
}

impl GpuSession {
    /// A session with nothing created yet.
    pub fn new() -> (r: GpuSession)
        ensures
            r == (GpuSession { has_pipeline: false, has_commands: false }),
    {
        GpuSession { has_pipeline: false, has_commands: false }
    }

    /// A pipeline is created. There must be none; recorded commands stay as
    /// they are.
    pub fn create_compute_pipeline(&mut self)
        requires
            !old(self).has_pipeline,
        ensures
            *final(self) == (GpuSession { has_pipeline: true, ..*old(self) }),
    {
        self.has_pipeline = true;
    }

    /// The pipeline's work is recorded. There must be a pipeline and no
    /// commands waiting.
    pub fn dispatch_compute_pipeline(&mut self)
        requires
            old(self).has_pipeline,
            !old(self).has_commands,
        ensures
            *final(self) == (GpuSession { has_commands: true, ..*old(self) }),
    {
        self.has_commands = true;
    }

    /// The recorded commands are submitted. There must be some; the pipeline
    /// stays.
    pub fn submit_compute_pipeline(&mut self)
        requires
            old(self).has_commands,
        ensures
            *final(self) == (GpuSession { has_commands: false, ..*old(self) }),
    {
        self.has_commands = false;
    }

    /// The accumulator is read back and the pipeline given up. There must be
    /// a pipeline; recorded commands stay as they are.
    pub fn block_and_get_single_result(&mut self)
        requires
            old(self).has_pipeline,
        ensures
            *final(self) == (GpuSession { has_pipeline: false, ..*old(self) }),
    {
        self.has_pipeline = false;
    }
}

/// The accumulator read back from the device: four words per pixel of a
/// picture of `pixels` pixels.
pub fn decode_readback(bytes: &Vec<u8>, pixels: usize) -> (r: Result<Vec<u32>, GpuError>)
    ensures
        match r {
            Ok(words) => {
                &&& bytes@.len() == 16 * pixels
                &&& words@.len() == 4 * pixels
                &&& is_image_of(bytes@, words@)
            },
            Err(e) => e == GpuError::ReadbackSize && bytes@.len() != 16 * pixels,
        },
{
    let len = bytes.len();
    if pixels > usize::MAX / 16 {
        return Err(GpuError::ReadbackSize);
    }
    if len != 16 * pixels {
        return Err(GpuError::ReadbackSize);
    }
    Ok(words_of_image(bytes))
}

/// The accumulator before the first sample: one word for every byte of the
/// picture, holding that byte as a binary32 number.
pub fn accumulator_words(target: &RenderTarget) -> (r: Vec<u32>)
    ensures
        r@.len() == target@.len(),
        forall|i: int|
            0 <= i < r@.len() ==> (Scalar { bits: #[trigger] r@[i] }).is_count(target@[i] as nat),
{
    let n = target.buff.len();
    let mut out: Vec<u32> = Vec::new();
    let mut i: usize = 0;
    while i < n
        invariant
            n == target.buff@.len(),
            0 <= i <= n,
            out@.len() == i,
            forall|k: int|
                0 <= k < i ==> (Scalar { bits: #[trigger] out@[k] }).is_count(target@[k] as nat),
        decreases n - i,
    {
        out.push(Scalar::from_count(target.buff[i] as usize).to_bits());
        i += 1;
    }
    out
}

} // verus!
