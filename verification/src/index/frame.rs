use vstd::bytes;
use vstd::prelude::*;
use vstd::slice::slice_subrange;

verus! {

/// What an index file starts with: `RPGRP003`.
pub const MAGIC: [u8; 8] = [0x52, 0x50, 0x47, 0x52, 0x50, 0x30, 0x30, 0x33];

/// Length of the header: the magic and the length of the payload.
pub const HEADER_LEN: usize = 16;

/// Why the bytes of a file are not an index.
#[derive(Clone, Copy, Debug, PartialEq, Eq, Structural)]
pub enum FrameError {
    /// Fewer bytes than a header takes.
    Truncated { len: usize },
    /// The file does not start with the magic.
    BadMagic,
    /// Fewer bytes than the header announces.
    ShortPayload { total: usize, len: usize },
}

/// Where the payload stands in the file.
#[derive(Clone, Copy, Debug, PartialEq, Eq, Structural)]
pub struct Section {
    pub offset: usize,
    pub len: usize,
}

/// An index file: the magic, the length of the payload in eight bytes, least
/// significant first, and the payload.
pub open spec fn framed(payload: Seq<u8>) -> Seq<u8> {
    MAGIC@ + bytes::spec_u64_to_le_bytes(payload.len() as u64) + payload
}

/// The payload length that a header announces.
pub open spec fn announced(file: Seq<u8>) -> usize {
    bytes::spec_u64_from_le_bytes(file.subrange(8, 16)) as usize
}

/// The length of the file that a header announces, as far as it can be counted.
pub open spec fn announced_total(file: Seq<u8>) -> int {
    if HEADER_LEN + announced(file) <= usize::MAX {
        HEADER_LEN + announced(file)
    } else {
        usize::MAX as int
    }
}

/// Where the payload stands in `file`, or the first thing that is wrong with
/// it. Bytes behind the payload do no harm.
pub open spec fn section_of(file: Seq<u8>) -> Result<Section, FrameError> {
    if file.len() < HEADER_LEN {
        Err(FrameError::Truncated { len: file.len() as usize })
    } else if file.take(8) != MAGIC@ {
        Err(FrameError::BadMagic)
    } else if file.len() < HEADER_LEN + announced(file) {
        Err(
            FrameError::ShortPayload {
                total: announced_total(file) as usize,
                len: file.len() as usize,
            },
        )
    } else {
        Ok(Section { offset: HEADER_LEN, len: announced(file) })
    }
}

/// Appends `part` to `out`.
fn append(out: &mut Vec<u8>, part: &[u8])
    ensures
        final(out)@ == old(out)@ + part@,
{
    let mut i: usize = 0;
    while i < part.len()
        invariant
            i <= part.len(),
            out@ == old(out)@ + part@.take(i as int),
        decreases part.len() - i,
    {
        out.push(part[i]);
        i = i + 1;
        assert(out@ =~= old(out)@ + part@.take(i as int));
    }
    assert(part@.take(part@.len() as int) =~= part@);
}

/// The bytes of an index file with the given payload.
pub fn frame(payload: &[u8]) -> (r: Vec<u8>)
    ensures
        r@ == framed(payload@),
{
    let mut out: Vec<u8> = Vec::new();
    let len: Vec<u8> = bytes::u64_to_le_bytes(payload.len() as u64);
    append(&mut out, &MAGIC);
    append(&mut out, len.as_slice());
    append(&mut out, payload);
    assert(out@ =~= framed(payload@));
    out
}

/// Whether `file` starts with the magic.
fn has_magic(file: &[u8]) -> (r: bool)
    requires
        file@.len() >= 8,
    ensures
        r == (file@.take(8) == MAGIC@),
{
    let magic: [u8; 8] = MAGIC;
    let mut i: usize = 0;
    while i < 8
        invariant
            i <= 8,
            magic@ == MAGIC@,
            magic@.len() == 8,
            file@.len() >= 8,
            forall|k: int| 0 <= k < i ==> file@[k] == magic@[k],
        decreases 8 - i,
    {
        if file[i] != magic[i] {
            assert(file@.take(8)[i as int] != magic@[i as int]);
            return false;
        }
        i = i + 1;
    }
    assert(file@.take(8) =~= magic@);
    true
}

/// Where the payload stands in an index file, or why there is none.
pub fn find_section(file: &[u8]) -> (r: Result<Section, FrameError>)
    ensures
        r == section_of(file@),
        r is Ok ==> r->Ok_0.offset + r->Ok_0.len <= file@.len(),
{
    let len: usize = file.len();
    if len < HEADER_LEN {
        return Err(FrameError::Truncated { len });
    }
    if !has_magic(file) {
        return Err(FrameError::BadMagic);
    }
    let n: usize = bytes::u64_from_le_bytes(slice_subrange(file, 8, 16)) as usize;
    let total: usize = if n <= usize::MAX - HEADER_LEN {
        HEADER_LEN + n
    } else {
        usize::MAX
    };
    if len - HEADER_LEN < n {
        return Err(FrameError::ShortPayload { total, len });
    }
    Ok(Section { offset: HEADER_LEN, len: n })
}

/// What was framed is found again: the section of a framed payload is the
/// payload, whatever bytes follow it.
pub proof fn law_frame_round_trip(payload: Seq<u8>, rest: Seq<u8>)
    requires
        payload.len() <= usize::MAX - HEADER_LEN,
    ensures
        section_of(framed(payload) + rest) == Ok::<Section, FrameError>(
            Section { offset: HEADER_LEN, len: payload.len() as usize },
        ),
        (framed(payload) + rest).subrange(HEADER_LEN as int, HEADER_LEN + payload.len()) == payload,
{
    bytes::lemma_auto_spec_u64_to_from_le_bytes();
    let file = framed(payload) + rest;
    let len = bytes::spec_u64_to_le_bytes(payload.len() as u64);
    assert(MAGIC@.len() == 8);
    assert(len.len() == 8);
    assert(file.take(8) =~= MAGIC@);
    assert(file.subrange(8, 16) =~= len);
    assert(file.subrange(HEADER_LEN as int, HEADER_LEN + payload.len()) =~= payload);
}

/// An index file starts with the magic and the length of what follows the header.
pub proof fn law_header_tells_magic_and_length(payload: Seq<u8>)
    requires
        payload.len() <= usize::MAX - HEADER_LEN,
    ensures
        framed(payload).take(8) == MAGIC@,
        bytes::spec_u64_from_le_bytes(framed(payload).subrange(8, 16)) == framed(payload).len()
            - HEADER_LEN,
{
    bytes::lemma_auto_spec_u64_to_from_le_bytes();
    let len = bytes::spec_u64_to_le_bytes(payload.len() as u64);
    assert(MAGIC@.len() == 8);
    assert(len.len() == 8);
    assert(framed(payload).take(8) =~= MAGIC@);
    assert(framed(payload).subrange(8, 16) =~= len);
}

/// A file cut off anywhere before the end of its payload is not taken for an
/// index.
pub proof fn law_cut_file_is_refused(payload: Seq<u8>, n: int)
    requires
        payload.len() <= usize::MAX - HEADER_LEN,
        0 <= n < framed(payload).len(),
    ensures
        section_of(framed(payload).take(n)) is Err,
{
    bytes::lemma_auto_spec_u64_to_from_le_bytes();
    let file = framed(payload).take(n);
    let len = bytes::spec_u64_to_le_bytes(payload.len() as u64);
    assert(MAGIC@.len() == 8);
    assert(len.len() == 8);
    if n >= 16 {
        assert(file.subrange(8, 16) =~= len);
    }
}

/// Only a file that starts with the magic, and is as long as its header says, is
/// taken for an index; what is wrong with another is told in this order.
pub proof fn law_only_whole_files_with_the_magic_are_taken(file: Seq<u8>)
    requires
        file.len() <= usize::MAX,
    ensures
        file.len() < 16 ==> section_of(file) == Err::<Section, FrameError>(
            FrameError::Truncated { len: file.len() as usize },
        ),
        file.len() >= 16 && !(file[0] == 0x52 && file[1] == 0x50 && file[2] == 0x47 && file[3] == 0x52
            && file[4] == 0x50 && file[5] == 0x30 && file[6] == 0x30 && file[7] == 0x33)
            ==> section_of(file) == Err::<Section, FrameError>(FrameError::BadMagic),
        section_of(file) is Ok ==> {
            let s = section_of(file)->Ok_0;
            &&& s.offset == 16
            &&& s.offset + s.len <= file.len()
            &&& s.len == bytes::spec_u64_from_le_bytes(file.subrange(8, 16)) as usize
        },
{
    if file.len() >= 16 && file.take(8) == MAGIC@ {
        assert(file.take(8)[0] == MAGIC@[0]);
        assert(file.take(8)[1] == MAGIC@[1]);
        assert(file.take(8)[2] == MAGIC@[2]);
        assert(file.take(8)[3] == MAGIC@[3]);
        assert(file.take(8)[4] == MAGIC@[4]);
        assert(file.take(8)[5] == MAGIC@[5]);
        assert(file.take(8)[6] == MAGIC@[6]);
        assert(file.take(8)[7] == MAGIC@[7]);
    }
}

/// What was framed is found again, whatever stands behind it.
pub proof fn law_framed_is_found_again(
    payload: &[u8],
    file: Vec<u8>,
    rest: Seq<u8>,
    whole: &[u8],
    r: Result<Section, FrameError>,
)
    requires
        call_ensures(frame, (payload,), file),
        call_ensures(find_section, (whole,), r),
        whole@ == file@ + rest,
        payload@.len() <= usize::MAX - HEADER_LEN,
    ensures
        r is Ok,
        whole@.subrange(r->Ok_0.offset as int, r->Ok_0.offset + r->Ok_0.len) == payload@,
{
    law_frame_round_trip(payload@, rest);
}

} // verus!
