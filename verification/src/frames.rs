//! Blobs over a data channel: cut into frames, each a header of two numbers and
//! at most 16 KiB of data, and put together again.

use vstd::prelude::*;
use vstd::slice::*;

verus! {

/// How many bytes of data a frame holds at most.
pub const CHUNK: usize = 16384;

/// How many bytes the header of a frame takes.
pub const HEADER: usize = 8;

/// A number of 32 bits, the highest byte first.
pub open spec fn be32(n: u32) -> Seq<u8> {
    seq![
        (n / 0x100_0000) as u8,
        (n / 0x1_0000 % 0x100) as u8,
        (n / 0x100 % 0x100) as u8,
        (n % 0x100) as u8,
    ]
}

/// How many frames data of this length takes.
pub open spec fn frame_count(len: nat) -> nat {
    (len + CHUNK - 1) as nat / CHUNK as nat
}

/// The data of a frame.
pub open spec fn payload(data: Seq<u8>, i: int) -> Seq<u8> {
    let from = i * CHUNK;
    let to = if from + CHUNK <= data.len() {
        from + CHUNK
    } else {
        data.len() as int
    };
    data.subrange(from, to)
}

/// A frame: its position and how many frames there are, each as 32 bits, and its data.
pub open spec fn frame_of(data: Seq<u8>, i: int) -> Seq<u8> {
    be32((i % 0x1_0000_0000) as u32) + be32((frame_count(data.len()) % 0x1_0000_0000) as u32)
        + payload(data, i)
}

/// The frames of a blob.
pub open spec fn frames_of(data: Seq<u8>) -> Seq<Seq<u8>> {
    Seq::new(frame_count(data.len()), |i: int| frame_of(data, i))
}

fn push_be32(out: &mut Vec<u8>, n: u32)
    ensures
        final(out)@ == old(out)@ + be32(n),
{
    out.push((n / 0x100_0000) as u8);
    out.push((n / 0x1_0000 % 0x100) as u8);
    out.push((n / 0x100 % 0x100) as u8);
    out.push((n % 0x100) as u8);
    assert(out@ == old(out)@ + be32(n));
}

/// Cuts a blob into its frames.
pub fn frames(data: &[u8]) -> (r: Vec<Vec<u8>>)
    ensures
        r@.map_values(|f: Vec<u8>| f@) == frames_of(data@),
{
    let n = data.len();
    let count: usize = if n % CHUNK == 0 {
        n / CHUNK
    } else {
        n / CHUNK + 1
    };
    assert(count == frame_count(n as nat));
    let total = (count as u64 % 0x1_0000_0000) as u32;
    let mut out: Vec<Vec<u8>> = Vec::new();
    let mut at: usize = 0;
    let mut seq: u64 = 0;
    while at < n
        invariant
            n == data@.len(),
            total == (frame_count(n as nat) % 0x1_0000_0000) as u32,
            at <= n,
            seq <= frame_count(n as nat),
            at < n ==> at == seq * CHUNK,
            at == n ==> seq == frame_count(n as nat),
            out@.len() == seq,
            forall|k: int|
                0 <= k < seq ==> (#[trigger] out@[k])@ == frame_of(data@, k),
        decreases n - at,
    {
        let to = if n - at > CHUNK {
            at + CHUNK
        } else {
            n
        };
        let part = slice_subrange(data, at, to);
        let mut frame: Vec<u8> = Vec::new();
        push_be32(&mut frame, (seq % 0x1_0000_0000) as u32);
        push_be32(&mut frame, total);
        frame.extend_from_slice(part);
        assert(part@ == payload(data@, seq as int));
        assert(frame@ == frame_of(data@, seq as int));
        out.push(frame);
        seq += 1;
        at = to;
    }
    assert(out@.map_values(|f: Vec<u8>| f@) =~= frames_of(data@));
    out
}

/// The data of these frames, without their headers.
pub open spec fn joined(frames: Seq<Seq<u8>>) -> Seq<u8>
    decreases frames.len(),
{
    if frames.len() == 0 {
        Seq::empty()
    } else {
        joined(frames.drop_last()) + frames.last().skip(HEADER as int)
    }
}

pub proof fn lemma_joined_part(data: Seq<u8>, n: nat)
    requires
        n <= frame_count(data.len()),
    ensures
        joined(frames_of(data).take(n as int)) == data.take(
            if n * CHUNK <= data.len() {
                n * CHUNK
            } else {
                data.len() as int
            },
        ),
    decreases n,
{
    let fs = frames_of(data).take(n as int);
    if n == 0 {
        assert(data.take(0) =~= Seq::<u8>::empty());
    } else {
        lemma_joined_part(data, (n - 1) as nat);
        assert(fs.drop_last() =~= frames_of(data).take(n - 1));
        assert(fs.last() == frame_of(data, n - 1));
        assert(fs.last().skip(8) =~= payload(data, n - 1));
        assert(joined(fs) =~= data.take(
            if n * CHUNK <= data.len() {
                n * CHUNK
            } else {
                data.len() as int
            },
        ));
    }
}

/// The frames of a blob put together give the blob back; each holds some data,
/// and none more than [`CHUNK`] bytes of it.
pub proof fn law_frames_give_blob_back(data: Seq<u8>)
    ensures
        joined(frames_of(data)) == data,
        forall|i: int|
            0 <= i < frames_of(data).len() ==> HEADER < (#[trigger] frames_of(data)[i]).len()
                <= HEADER + CHUNK,
{
    let n = frame_count(data.len());
    lemma_joined_part(data, n);
    assert(frames_of(data).take(n as int) =~= frames_of(data));
    assert(data.take(data.len() as int) =~= data);
}

/// The number that four bytes stand for, the highest first.
pub open spec fn number_of(b: Seq<u8>) -> int {
    b[0] * 0x100_0000 + b[1] * 0x1_0000 + b[2] * 0x100 + b[3]
}

/// Each frame says in its header which it is, counted from zero, and how many there are, as
/// far as 32 bits go; behind it stands its part of the data: as much as a frame holds in
/// each but the last, and there the rest.
pub proof fn law_frames_say_which_they_are(data: Seq<u8>, i: int)
    requires
        0 <= i < frames_of(data).len(),
    ensures
        ({
            let f = frames_of(data)[i];
            let n = frames_of(data).len();
            &&& number_of(f.subrange(0, 4)) == i % 0x1_0000_0000
            &&& number_of(f.subrange(4, 8)) == n as int % 0x1_0000_0000
            &&& i + 1 < n ==> f.len() == 8 + 16384 && f.skip(8) == data.subrange(
                i * 16384,
                i * 16384 + 16384,
            )
            &&& i + 1 == n ==> f.skip(8) == data.skip(i * 16384) && 0 < data.len() - i * 16384
                <= 16384
        }),
{
    let f = frames_of(data)[i];
    let n = frames_of(data).len();
    let (a, b) = ((i % 0x1_0000_0000) as u32, (n as int % 0x1_0000_0000) as u32);
    lemma_number(a);
    lemma_number(b);
    assert(f.subrange(0, 4) =~= be32(a));
    assert(f.subrange(4, 8) =~= be32(b));
    assert(f.skip(8) =~= payload(data, i));
    if i + 1 == n {
        assert(payload(data, i) =~= data.skip(i * 16384));
    }
}

proof fn lemma_number(n: u32)
    ensures
        number_of(be32(n)) == n,
{
    let (a, b, c, d) = (
        (n / 0x100_0000) as u8,
        (n / 0x1_0000 % 0x100) as u8,
        (n / 0x100 % 0x100) as u8,
        (n % 0x100) as u8,
    );
    assert(a * 0x100_0000 + b * 0x1_0000 + c * 0x100 + d == n);
}

/// Data that is not empty takes as many frames as there are parts of 16384 bytes in it,
/// the last of which may be shorter; empty data takes none.
pub proof fn law_how_many_frames(data: Seq<u8>)
    ensures
        data.len() == 0 <==> frames_of(data).len() == 0,
        data.len() > 0 ==> (frames_of(data).len() - 1) * 16384 < data.len() <= frames_of(
            data,
        ).len() * 16384,
{
}

} // verus!
