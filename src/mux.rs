use vstd::prelude::*;

use crate::ebml::{
    be_bytes, element, f64_bits_of_int, vint_value, vint_width, id_bytes, push_element, push_float_element, push_id,
    push_size, push_size8, push_uint_element, push_unknown_size, size_bytes, size_field, uint_element,
    unknown_size_field, MAX_SIZE,
};
pub use crate::io::Writer;
use vstd::string::StringSliceAdditionalSpecFns;

verus! {

/// Nanoseconds per tick of every timestamp in the document.
pub const TIMECODE_SCALE: u64 = 1_000_000;

/// Ticks after a cluster's base from which a video keyframe opens a new cluster.
pub const CLUSTER_TICKS: u64 = 5_000;

/// Largest document, cue index included, that a segment will write: what an
/// in-memory destination can address on any target.
pub const MAX_DOCUMENT: u64 = 0xFFFF_0000;

/// Largest explicit track number.
pub const MAX_TRACK_NUMBER: u64 = 0x7FFF_FFFF;

#[derive(PartialEq, Eq, Structural, Clone, Copy, Debug)]
pub enum MuxError {
    /// The destination was refused when the segment was bound to it.
    Binding,
    /// A write or a reposition failed, or the document would outgrow its limit.
    Io,
    /// The call is not valid in the segment's state: finalized, header
    /// already written, unknown track, or a track number already taken.
    State,
    /// A frame's timestamp is below the previous one on its track.
    Ordering,
}

#[derive(PartialEq, Eq, Structural, Clone, Copy, Debug)]
pub enum AudioCodecId {
    Opus,
    Vorbis,
}

#[derive(PartialEq, Eq, Structural, Clone, Copy, Debug)]
pub enum VideoCodecId {
    VP8,
    VP9,
    H264,
    H265,
    Uncompressed,
    FFV1,
    AV1,
}

/// The Matroska codec identifier of an audio codec.
pub open spec fn audio_codec_name(c: AudioCodecId) -> Seq<u8> {
    match c {
        AudioCodecId::Opus => seq![0x41, 0x5f, 0x4f, 0x50, 0x55, 0x53],
        AudioCodecId::Vorbis => seq![0x41, 0x5f, 0x56, 0x4f, 0x52, 0x42, 0x49, 0x53],
    }
}

/// The Matroska codec identifier of a video codec.
pub open spec fn video_codec_name(c: VideoCodecId) -> Seq<u8> {
    match c {
        VideoCodecId::VP8 => seq![0x56, 0x5f, 0x56, 0x50, 0x38],
        VideoCodecId::VP9 => seq![0x56, 0x5f, 0x56, 0x50, 0x39],
        VideoCodecId::H264 => seq![
            0x56, 0x5f, 0x4d, 0x50, 0x45, 0x47, 0x34, 0x2f, 0x49, 0x53, 0x4f, 0x2f, 0x41, 0x56, 0x43
        ],
        VideoCodecId::H265 => seq![
            0x56, 0x5f, 0x4d, 0x50, 0x45, 0x47, 0x48, 0x2f, 0x49, 0x53, 0x4f, 0x2f, 0x48, 0x45, 0x56, 0x43
        ],
        VideoCodecId::Uncompressed => seq![
            0x56, 0x5f, 0x55, 0x4e, 0x43, 0x4f, 0x4d, 0x50, 0x52, 0x45, 0x53, 0x53, 0x45, 0x44
        ],
        VideoCodecId::FFV1 => seq![0x56, 0x5f, 0x46, 0x46, 0x56, 0x31],
        VideoCodecId::AV1 => seq![0x56, 0x5f, 0x41, 0x56, 0x31],
    }
}

impl AudioCodecId {
    /// The codec identifier written in the track entry.
    pub fn get_id(&self) -> (r: Vec<u8>)
        ensures
            r@ == audio_codec_name(*self),
    {
        let r = match self {
            AudioCodecId::Opus => vec![0x41, 0x5f, 0x4f, 0x50, 0x55, 0x53],
            AudioCodecId::Vorbis => vec![0x41, 0x5f, 0x56, 0x4f, 0x52, 0x42, 0x49, 0x53],
        };
        proof {
            assert(r@ =~= audio_codec_name(*self));
        }
        r
    }
}

impl VideoCodecId {
    /// The codec identifier written in the track entry.
    pub fn get_id(&self) -> (r: Vec<u8>)
        ensures
            r@ == video_codec_name(*self),
    {
        let r = match self {
            VideoCodecId::VP8 => vec![0x56, 0x5f, 0x56, 0x50, 0x38],
            VideoCodecId::VP9 => vec![0x56, 0x5f, 0x56, 0x50, 0x39],
            VideoCodecId::H264 => vec![
                0x56, 0x5f, 0x4d, 0x50, 0x45, 0x47, 0x34, 0x2f, 0x49, 0x53, 0x4f, 0x2f, 0x41, 0x56, 0x43
            ],
            VideoCodecId::H265 => vec![
                0x56, 0x5f, 0x4d, 0x50, 0x45, 0x47, 0x48, 0x2f, 0x49, 0x53, 0x4f, 0x2f, 0x48, 0x45, 0x56, 0x43
            ],
            VideoCodecId::Uncompressed => vec![
                0x56, 0x5f, 0x55, 0x4e, 0x43, 0x4f, 0x4d, 0x50, 0x52, 0x45, 0x53, 0x53, 0x45, 0x44
            ],
            VideoCodecId::FFV1 => vec![0x56, 0x5f, 0x46, 0x46, 0x56, 0x31],
            VideoCodecId::AV1 => vec![0x56, 0x5f, 0x41, 0x56, 0x31],
        };
        proof {
            assert(r@ =~= video_codec_name(*self));
        }
        r
    }
}

/// Colour metadata of a video track.
#[derive(PartialEq, Eq, Structural, Clone, Copy, Debug)]
pub struct Color {
    pub bit_depth: u8,
    pub subsampling_horz: bool,
    pub subsampling_vert: bool,
    pub full_range: bool,
}

#[derive(PartialEq, Eq, Structural, Clone, Copy, Debug)]
pub enum TrackKind {
    Video { width: u32, height: u32, video_codec: VideoCodecId },
    Audio { sample_rate: i32, channels: i32, audio_codec: AudioCodecId },
}

/// One track of a segment: its number, what it carries, its colour metadata
/// where set, and the timestamp of its latest frame where it has one.
#[derive(PartialEq, Eq, Structural, Clone, Copy, Debug)]
pub struct TrackInfo {
    pub number: u64,
    pub kind: TrackKind,
    pub has_color: bool,
    pub color: Color,
    pub has_frames: bool,
    pub last_timestamp: u64,
}

/// Whether some track in `tracks` has number `n`.
pub open spec fn number_taken(tracks: Seq<TrackInfo>, n: nat) -> bool {
    exists|i: int| 0 <= i < tracks.len() && tracks[i].number == n
}

/// The number given to a track added without an explicit one: the lowest
/// positive integer that no track has.
pub open spec fn is_lowest_free(tracks: Seq<TrackInfo>, n: nat) -> bool {
    &&& n >= 1
    &&& !number_taken(tracks, n)
    &&& forall|m: nat| 1 <= m < n ==> number_taken(tracks, m)
}

/// Track numbers are positive, bounded and distinct.
pub open spec fn numbers_ok(tracks: Seq<TrackInfo>) -> bool {
    &&& forall|i: int| 0 <= i < tracks.len() ==> 1 <= #[trigger] tracks[i].number <= MAX_TRACK_NUMBER
    &&& forall|i: int, j: int|
        0 <= i < tracks.len() && 0 <= j < tracks.len() && i != j ==> tracks[i].number
            != tracks[j].number
}

/// A handle on a video track of a segment, by its track number.
#[derive(PartialEq, Eq, Structural, Clone, Copy, Debug)]
pub struct VideoTrack {
    pub number: u64,
}

/// A handle on an audio track of a segment, by its track number.
#[derive(PartialEq, Eq, Structural, Clone, Copy, Debug)]
pub struct AudioTrack {
    pub number: u64,
}

pub trait Track {
    /// Whether the track carries video.
    spec fn carries_video(&self) -> bool;

    /// The track's number.
    spec fn number_of(&self) -> u64;

    fn is_audio(&self) -> (r: bool)
        ensures
            r == !self.carries_video(),
    ;

    fn is_video(&self) -> (r: bool)
        ensures
            r == self.carries_video(),
    ;

    /// The track number frames of this track are written under.
    fn track_number(&self) -> (n: u64)
        ensures
            n == self.number_of(),
    ;
}

impl Track for VideoTrack {
    open spec fn carries_video(&self) -> bool {
        true
    }

    open spec fn number_of(&self) -> u64 {
        self.number
    }

    fn is_audio(&self) -> (r: bool) {
        false
    }

    fn is_video(&self) -> (r: bool) {
        true
    }

    fn track_number(&self) -> (n: u64) {
        self.number
    }
}

impl Track for AudioTrack {
    open spec fn carries_video(&self) -> bool {
        false
    }

    open spec fn number_of(&self) -> u64 {
        self.number
    }

    fn is_audio(&self) -> (r: bool) {
        true
    }

    fn is_video(&self) -> (r: bool) {
        false
    }

    fn track_number(&self) -> (n: u64) {
        self.number
    }
}

/// Appends the opening of a cluster with base `tick`.
fn push_cluster_start(out: &mut Vec<u8>, tick: u64)
    ensures
        final(out)@ == old(out)@ + cluster_start(tick as nat),
        final(out)@.len() <= old(out)@.len() + 25,
{
    push_id(out, 0x1F43B675);
    push_unknown_size(out);
    push_uint_element(out, 0xE7, tick);
    proof {
        crate::ebml::lemma_be_bytes_len(0x1F43B675, 4);
        crate::ebml::lemma_be_bytes_len(0x01FF_FFFF_FFFF_FFFF, 8);
        crate::ebml::lemma_uint_element_len(0xE7, tick as nat);
        assert(final(out)@ =~= old(out)@ + cluster_start(tick as nat));
    }
}

/// The SimpleBlock of a frame; `None` where the frame is too large to state.
fn block_bytes(track: u64, rel: i64, keyframe: bool, data: &[u8]) -> (r: Option<Vec<u8>>)
    requires
        1 <= track <= MAX_TRACK_NUMBER,
        -0x8000 <= rel <= 0x7FFF,
    ensures
        r is Some ==> r->0@ == simple_block(track as nat, rel as int, keyframe, data@),
        r is Some ==> r->0@.len() <= data@.len() + 24,
        data@.len() + 16 <= MAX_SIZE ==> r is Some,
{
    let rel16: u64 = ((rel + 0x10000) % 0x10000) as u64;
    let mut body: Vec<u8> = Vec::new();
    push_size(&mut body, track);
    crate::ebml::push_be(&mut body, rel16, 2);
    let flag: u8 = if keyframe {
        0x80
    } else {
        0
    };
    body.push(flag);
    crate::ebml::push_all(&mut body, data);
    proof {
        assert(body@ =~= size_field(track as nat) + be_bytes(((rel + 0x10000) % 0x10000) as nat, 2)
            + seq![flag] + data@);
    }
    proof {
        crate::ebml::lemma_be_bytes_len(
            crate::ebml::size_marker(crate::ebml::size_width(track as nat)) + track as nat,
            crate::ebml::size_width(track as nat),
        );
        crate::ebml::lemma_be_bytes_len(((rel + 0x10000) % 0x10000) as nat, 2);
        assert(body@.len() <= data@.len() + 16);
    }
    if body.len() as u64 > MAX_SIZE {
        return None;
    }
    let mut out: Vec<u8> = Vec::new();
    push_element(&mut out, 0xA3, body.as_slice());
    proof {
        crate::ebml::lemma_element_len(0xA3, body@);
    }
    proof {
        assert(out@ =~= simple_block(track as nat, rel as int, keyframe, data@));
    }
    Some(out)
}

/// A cue point: a cluster's base tick, the track, and the cluster's offset
/// from the start of the Segment's payload.
fn cue_point_bytes(track: u64, tick: u64, offset: u64) -> (r: Vec<u8>)
    ensures
        r@.len() <= 64,
        r@ == cue_point(track as nat, tick as nat, offset as nat),
{
    let mut positions: Vec<u8> = Vec::new();
    push_uint_element(&mut positions, 0xF7, track);
    push_uint_element(&mut positions, 0xF1, offset);
    let mut point: Vec<u8> = Vec::new();
    push_uint_element(&mut point, 0xB3, tick);
    proof {
        crate::ebml::lemma_uint_element_len(0xF7, track as nat);
        crate::ebml::lemma_uint_element_len(0xF1, offset as nat);
        crate::ebml::lemma_uint_element_len(0xB3, tick as nat);
    }
    push_element(&mut point, 0xB7, positions.as_slice());
    proof {
        crate::ebml::lemma_element_len(0xB7, positions@);
    }
    let mut cue: Vec<u8> = Vec::new();
    push_element(&mut cue, 0xBB, point.as_slice());
    proof {
        crate::ebml::lemma_element_len(0xBB, point@);
        assert(cue@ =~= cue_point(track as nat, tick as nat, offset as nat));
    }
    cue
}

/// Rewrites the eight bytes at `pos` of a seekable destination and puts the
/// cursor back at the end.
fn patch8(w: &mut Writer, pos: u64, bytes: &Vec<u8>)
    requires
        old(w).wf(),
        old(w)@.seekable,
        old(w)@.pos == old(w)@.data.len(),
        bytes@.len() == 8,
        pos + 8 <= old(w)@.data.len(),
    ensures
        final(w).wf(),
        final(w)@.seekable,
        final(w)@.pos == final(w)@.data.len(),
        final(w)@.data.len() == old(w)@.data.len(),
        final(w)@.data.subrange(pos as int, pos + 8) == bytes@,
        forall|j: int|
            0 <= j < old(w)@.data.len() && !(pos <= j < pos + 8) ==> #[trigger] final(w)@.data[j]
                == old(w)@.data[j],
{
    let end = w.len();
    w.set_position(pos);
    w.write(bytes.as_slice());
    w.set_position(end as u64);
    proof {
        assert(final(w)@.data.subrange(pos as int, pos + 8) =~= bytes@);
    }
}

/// The payload of a TrackEntry: number, UID, type, codec, then the video or
/// audio settings.
#[verifier::rlimit(100)]
fn track_entry_bytes(t: TrackInfo) -> (r: Vec<u8>)
    ensures
        r@.len() <= 140,
        r@ == track_entry(t),
{
    let mut entry: Vec<u8> = Vec::new();
    push_uint_element(&mut entry, 0xD7, t.number);
    push_uint_element(&mut entry, 0x73C5, t.number);
    proof {
        crate::ebml::lemma_uint_element_len(0xD7, t.number as nat);
        crate::ebml::lemma_uint_element_len(0x73C5, t.number as nat);
    }
    match t.kind {
        TrackKind::Video { width, height, video_codec } => {
            push_uint_element(&mut entry, 0x83, 1);
            let name = video_codec.get_id();
            push_element(&mut entry, 0x86, name.as_slice());
            let mut video: Vec<u8> = Vec::new();
            push_uint_element(&mut video, 0xB0, width as u64);
            push_uint_element(&mut video, 0xBA, height as u64);
            proof {
                crate::ebml::lemma_uint_element_len(0x83, 1);
                crate::ebml::lemma_element_len(0x86, name@);
                crate::ebml::lemma_uint_element_len(0xB0, width as nat);
                crate::ebml::lemma_uint_element_len(0xBA, height as nat);
            }
            if t.has_color {
                let mut colour: Vec<u8> = Vec::new();
                let h: u64 = if t.color.subsampling_horz { 1 } else { 0 };
                let v: u64 = if t.color.subsampling_vert { 1 } else { 0 };
                let range: u64 = if t.color.full_range { 2 } else { 1 };
                push_uint_element(&mut colour, 0x55B2, t.color.bit_depth as u64);
                push_uint_element(&mut colour, 0x55B3, h);
                push_uint_element(&mut colour, 0x55B4, v);
                push_uint_element(&mut colour, 0x55B9, range);
                proof {
                    crate::ebml::lemma_uint_element_len(0x55B2, t.color.bit_depth as nat);
                    crate::ebml::lemma_uint_element_len(0x55B3, h as nat);
                    crate::ebml::lemma_uint_element_len(0x55B4, v as nat);
                    crate::ebml::lemma_uint_element_len(0x55B9, range as nat);
                }
                push_element(&mut video, 0x55B0, colour.as_slice());
                proof {
                    crate::ebml::lemma_element_len(0x55B0, colour@);
                    assert(colour@ =~= uint_element(0x55B2, t.color.bit_depth as nat) + uint_element(0x55B3, h as nat)
                        + uint_element(0x55B4, v as nat) + uint_element(0x55B9, range as nat));
                }
            }
            proof {
                assert(video@ =~= uint_element(0xB0, width as nat) + uint_element(0xBA, height as nat) + if t.has_color {
                    colour_element(t.color)
                } else {
                    Seq::empty()
                });
            }
            push_element(&mut entry, 0xE0, video.as_slice());
            proof {
                crate::ebml::lemma_element_len(0xE0, video@);
                assert(entry@ =~= track_entry(t));
            }
        },
        TrackKind::Audio { sample_rate, channels, audio_codec } => {
            push_uint_element(&mut entry, 0x83, 2);
            let name = audio_codec.get_id();
            push_element(&mut entry, 0x86, name.as_slice());
            let mut audio: Vec<u8> = Vec::new();
            let rate: u64 = if sample_rate >= 0 { sample_rate as u64 } else { 0 };
            push_float_element(&mut audio, 0xB5, rate);
            let ch: u64 = if channels >= 0 { channels as u64 } else { 0 };
            push_uint_element(&mut audio, 0x9F, ch);
            proof {
                crate::ebml::lemma_uint_element_len(0x83, 2);
                crate::ebml::lemma_element_len(0x86, name@);
                crate::ebml::lemma_be_bytes_len(crate::ebml::f64_bits_of_int(rate as nat), 8);
                crate::ebml::lemma_element_len(0xB5, be_bytes(crate::ebml::f64_bits_of_int(rate as nat), 8));
                crate::ebml::lemma_uint_element_len(0x9F, ch as nat);
            }
            push_element(&mut entry, 0xE1, audio.as_slice());
            proof {
                crate::ebml::lemma_element_len(0xE1, audio@);
                assert(audio@ =~= element(0xB5, be_bytes(f64_bits_of_int(clamp_nonneg(sample_rate)), 8))
                    + uint_element(0x9F, clamp_nonneg(channels)));
                assert(entry@ =~= track_entry(t));
            }
        },
    }
    entry
}

/// Patches a finished document on a seekable destination: the Segment's
/// 8-byte size field at `size_pos` gets the length of what follows it, and
/// the Duration payload at `duration_pos` gets `ticks` as a double.
fn patch_size_and_duration(w: &mut Writer, size_pos: u64, duration_pos: u64, ticks: u64)
    requires
        old(w).wf(),
        old(w)@.seekable,
        old(w)@.pos == old(w)@.data.len(),
        size_pos + 8 <= duration_pos,
        duration_pos + 8 <= old(w)@.data.len(),
        old(w)@.data.len() <= MAX_DOCUMENT,
        ticks < 0x20_0000_0000_0000,
    ensures
        final(w).wf(),
        final(w)@.seekable,
        final(w)@.pos == final(w)@.data.len(),
        final(w)@.data.len() == old(w)@.data.len(),
        final(w)@.data.subrange(size_pos as int, size_pos + 8) == size_bytes(
            (old(w)@.data.len() - (size_pos + 8)) as nat,
            8,
        ),
        final(w)@.data.subrange(duration_pos as int, duration_pos + 8) == be_bytes(
            f64_bits_of_int(ticks as nat),
            8,
        ),
        forall|j: int|
            0 <= j < old(w)@.data.len() && !(size_pos <= j < size_pos + 8) && !(duration_pos <= j
                < duration_pos + 8) ==> #[trigger] final(w)@.data[j] == old(w)@.data[j],
{
    let end = w.len() as u64;
    let mut size: Vec<u8> = Vec::new();
    push_size8(&mut size, end - (size_pos + 8));
    proof {
        crate::ebml::lemma_be_bytes_len((0x100_0000_0000_0000 + (end - (size_pos + 8))) as nat, 8);
    }
    patch8(w, size_pos, &size);
    let bits = crate::ebml::f64_bits_of(ticks);
    let mut dur: Vec<u8> = Vec::new();
    crate::ebml::push_be(&mut dur, bits, 8);
    proof {
        crate::ebml::lemma_be_bytes_len(bits as nat, 8);
    }
    let ghost size_data = w@.data;
    patch8(w, duration_pos, &dur);
    proof {
        assert(w@.data.subrange(size_pos as int, size_pos + 8) =~= size_data.subrange(
            size_pos as int,
            size_pos + 8,
        ));
    }
}

/// Position of the track numbered `n` in `tracks`, if any.
fn find_track(tracks: &Vec<TrackInfo>, n: u64) -> (r: Option<usize>)
    ensures
        r is Some ==> r->0 < tracks@.len() && tracks@[r->0 as int].number == n,
        r is None ==> !number_taken(tracks@, n as nat),
{
    let mut i: usize = 0;
    while i < tracks.len()
        invariant
            i <= tracks@.len(),
            forall|j: int| 0 <= j < i ==> tracks@[j].number != n,
        decreases tracks@.len() - i,
    {
        if tracks[i].number == n {
            return Some(i);
        }
        i = i + 1;
    }
    None
}

/// The lowest positive number that no track has, if one is at most
/// `MAX_TRACK_NUMBER`.
fn lowest_free_number(tracks: &Vec<TrackInfo>) -> (r: Option<u64>)
    ensures
        r is Some ==> r->0 <= MAX_TRACK_NUMBER && is_lowest_free(tracks@, r->0 as nat),
        r is None ==> forall|m: nat| 1 <= m <= MAX_TRACK_NUMBER ==> number_taken(tracks@, m),
{
    let mut c: u64 = 1;
    while c <= MAX_TRACK_NUMBER
        invariant
            1 <= c <= MAX_TRACK_NUMBER + 1,
            forall|m: nat| 1 <= m < c ==> number_taken(tracks@, m),
        decreases MAX_TRACK_NUMBER + 1 - c,
    {
        match find_track(tracks, c) {
            None => {
                return Some(c);
            },
            Some(_) => {},
        }
        c = c + 1;
    }
    None
}


/// One frame as it stands in the document: the cluster it went into, by that
/// cluster's base tick, and its tick relative to that base.
#[derive(PartialEq, Eq, Structural, Clone, Copy, Debug)]
pub struct BlockRecord {
    pub track: u64,
    pub timestamp_ns: u64,
    pub keyframe: bool,
    pub cluster_tick: u64,
    pub rel: i64,
}

/// The tick a block's timestamp is written as: its cluster's base plus its
/// relative tick is the frame's timestamp in ticks, rounded down.
pub open spec fn block_time_ok(b: BlockRecord) -> bool {
    &&& -0x8000 <= b.rel <= 0x7FFF
    &&& b.cluster_tick as int + b.rel as int == (b.timestamp_ns / TIMECODE_SCALE) as int
}

/// A SimpleBlock: the track number as a variable-length integer, the
/// relative tick as a signed 16-bit integer, the flags, then the frame.
pub open spec fn simple_block(track: nat, rel: int, keyframe: bool, frame: Seq<u8>) -> Seq<u8> {
    element(0xA3, block_body(track, rel, keyframe, frame))
}

/// The payload of a SimpleBlock.
pub open spec fn block_body(track: nat, rel: int, keyframe: bool, frame: Seq<u8>) -> Seq<u8> {
    size_field(track) + be_bytes(((rel + 0x10000) % 0x10000) as nat, 2) + seq![
        if keyframe {
            0x80u8
        } else {
            0u8
        },
    ] + frame
}

/// A SimpleBlock's payload reads back as written: the track number as a
/// variable-length integer, then the relative tick as a signed 16-bit
/// big-endian integer, the keyframe flag in the top bit of the flags byte,
/// and the frame.
pub proof fn lemma_block_reads_back(track: nat, rel: int, keyframe: bool, frame: Seq<u8>)
    requires
        1 <= track <= MAX_TRACK_NUMBER,
        -0x8000 <= rel <= 0x7FFF,
    ensures
        ({
            let body = block_body(track, rel, keyframe, frame);
            let w = vint_width(body[0]) as int;
            let t = body[w] as int * 256 + body[w + 1] as int;
            &&& vint_value(body.take(w)) == track
            &&& (if t >= 0x8000 {
                t - 0x10000
            } else {
                t
            }) == rel
            &&& (body[w + 2] >= 0x80) == keyframe
            &&& body.skip(w + 3) == frame
        }),
{
    let body = block_body(track, rel, keyframe, frame);
    crate::ebml::lemma_size_field_round_trip(track);
    let sf = size_field(track);
    let w = sf.len() as int;
    let r16 = ((rel + 0x10000) % 0x10000) as nat;
    crate::ebml::lemma_be_bytes_index(r16, 2, 0);
    crate::ebml::lemma_be_bytes_index(r16, 2, 1);
    assert(crate::ebml::pow256(1) == 256) by {
        assert(crate::ebml::pow256(0) == 1);
    }
    assert(body[0] == sf[0]);
    assert(body.take(w) =~= sf);
    assert(body[w] == be_bytes(r16, 2)[0]);
    assert(body[w + 1] == be_bytes(r16, 2)[1]);
    assert(body.skip(w + 3) =~= frame);
}

/// The opening of a cluster of unknown size, with its base tick.
pub open spec fn cluster_start(tick: nat) -> Seq<u8> {
    id_bytes(0x1F43B675) + unknown_size_field() + uint_element(0xE7, tick)
}

/// The document's EBML header: versions, and the `webm` document type.
pub open spec fn ebml_header() -> Seq<u8> {
    element(
        0x1A45DFA3,
        uint_element(0x4286, 1) + uint_element(0x42F7, 1) + uint_element(0x42F2, 4)
            + uint_element(0x42F3, 8) + element(0x4282, seq![0x77u8, 0x65u8, 0x62u8, 0x6du8])
            + uint_element(0x4287, 4) + uint_element(0x4285, 2),
    )
}

/// A non-negative count as written: negative values are written as zero.
pub open spec fn clamp_nonneg(x: i32) -> nat {
    if x >= 0 {
        x as nat
    } else {
        0
    }
}

/// The Colour element of a video track.
pub open spec fn colour_element(c: Color) -> Seq<u8> {
    element(
        0x55B0,
        uint_element(0x55B2, c.bit_depth as nat) + uint_element(
            0x55B3,
            if c.subsampling_horz {
                1
            } else {
                0
            },
        ) + uint_element(
            0x55B4,
            if c.subsampling_vert {
                1
            } else {
                0
            },
        ) + uint_element(
            0x55B9,
            if c.full_range {
                2
            } else {
                1
            },
        ),
    )
}

/// The payload of a TrackEntry: number, UID, type, codec ID, then the Video
/// element (pixel width and height, Colour where set) or the Audio element
/// (sampling frequency as a double, channels).
pub open spec fn track_entry(t: TrackInfo) -> Seq<u8> {
    uint_element(0xD7, t.number as nat) + uint_element(0x73C5, t.number as nat) + match t.kind {
        TrackKind::Video { width, height, video_codec } => uint_element(0x83, 1) + element(
            0x86,
            video_codec_name(video_codec),
        ) + element(
            0xE0,
            uint_element(0xB0, width as nat) + uint_element(0xBA, height as nat) + if t.has_color {
                colour_element(t.color)
            } else {
                Seq::empty()
            },
        ),
        TrackKind::Audio { sample_rate, channels, audio_codec } => uint_element(0x83, 2) + element(
            0x86,
            audio_codec_name(audio_codec),
        ) + element(
            0xE1,
            element(0xB5, be_bytes(f64_bits_of_int(clamp_nonneg(sample_rate)), 8)) + uint_element(
                0x9F,
                clamp_nonneg(channels),
            ),
        ),
    }
}

/// One TrackEntry element per track, in order.
pub open spec fn track_entries(tracks: Seq<TrackInfo>) -> Seq<u8>
    decreases tracks.len(),
{
    if tracks.len() == 0 {
        Seq::empty()
    } else {
        track_entries(tracks.drop_last()) + element(0xAE, track_entry(tracks.last()))
    }
}

/// The payload of the Info element: timecode scale, a zero Duration slot on
/// a seekable destination, MuxingApp "webm", WritingApp, DateUTC where set.
pub open spec fn info_body(seekable: bool, app_name: Seq<u8>, date: Option<i64>) -> Seq<u8> {
    uint_element(0x2AD7B1, TIMECODE_SCALE as nat) + (if seekable {
        element(0x4489, be_bytes(f64_bits_of_int(0), 8))
    } else {
        Seq::empty()
    }) + element(0x4D80, seq![0x77u8, 0x65u8, 0x62u8, 0x6du8]) + element(0x5741, app_name) + match date {
        Some(d) => element(0x4461, be_bytes((d as u64) as nat, 8)),
        None => Seq::empty(),
    }
}

/// The header written before the first cluster: Info, then Tracks.
pub open spec fn header(v: SegmentView) -> Seq<u8> {
    element(0x1549A966, info_body(v.seekable, v.app_name, v.date)) + element(
        0x1654AE6B,
        track_entries(v.tracks),
    )
}

/// Where the Duration payload stands in the header.
pub open spec fn duration_offset(v: SegmentView) -> nat {
    (id_bytes(0x1549A966).len() + size_field(info_body(v.seekable, v.app_name, v.date).len()).len()
        + uint_element(0x2AD7B1, TIMECODE_SCALE as nat).len() + 3) as nat
}

/// The header bytes still to be written: none once written.
pub open spec fn pending_header(v: SegmentView) -> Seq<u8> {
    if v.header_written {
        Seq::empty()
    } else {
        header(v)
    }
}

/// The Cues element written at finalization: none without cue points.
pub open spec fn cues_element(cues: Seq<u8>) -> Seq<u8> {
    if cues.len() == 0 {
        Seq::empty()
    } else {
        element(0x1C53BB6B, cues)
    }
}

/// A cue point: a cluster's base tick, the track, and the cluster's offset
/// from the start of the Segment's payload.
pub open spec fn cue_point(track: nat, tick: nat, offset: nat) -> Seq<u8> {
    element(
        0xBB,
        uint_element(0xB3, tick) + element(0xB7, uint_element(0xF7, track) + uint_element(0xF1, offset)),
    )
}

/// What a segment has written and recorded.
pub struct SegmentView {
    pub tracks: Seq<TrackInfo>,
    pub data: Seq<u8>,
    pub seekable: bool,
    pub header_written: bool,
    pub finalized: bool,
    pub blocks: Seq<BlockRecord>,
    /// Where the Segment element's 8-byte size field starts.
    pub size_pos: nat,
    /// Where the Duration's 8-byte payload stands once the header is written
    /// to a seekable destination.
    pub duration_pos: nat,
    /// Largest frame tick written so far.
    pub max_tick: nat,
    /// Cue points recorded for the index written at finalization.
    pub cues: Seq<u8>,
    /// The writing application the header names.
    pub app_name: Seq<u8>,
    /// The date the header carries, if set.
    pub date: Option<i64>,
    /// Whether a cluster is open, and its base tick.
    pub cluster_open: bool,
    pub cluster_tick: nat,
}

/// A WebM segment being written to a destination: header, tracks, clusters
/// of frames and a cue index, finalized once.
pub struct Segment {
    writer: Writer,
    tracks: Vec<TrackInfo>,
    app_name: Vec<u8>,
    has_date: bool,
    date_utc: i64,
    header_written: bool,
    finalized: bool,
    size_pos: u64,
    duration_pos: u64,
    cluster_open: bool,
    cluster_tick: u64,
    cues: Vec<u8>,
    max_tick: u64,
    blocks: Ghost<Seq<BlockRecord>>,
}

impl View for Segment {
    type V = SegmentView;

    closed spec fn view(&self) -> SegmentView {
        SegmentView {
            tracks: self.tracks@,
            data: self.writer@.data,
            seekable: self.writer@.seekable,
            header_written: self.header_written,
            finalized: self.finalized,
            blocks: self.blocks@,
            size_pos: self.size_pos as nat,
            duration_pos: self.duration_pos as nat,
            max_tick: self.max_tick as nat,
            cues: self.cues@,
            app_name: self.app_name@,
            date: if self.has_date {
                Some(self.date_utc)
            } else {
                None
            },
            cluster_open: self.cluster_open,
            cluster_tick: self.cluster_tick as nat,
        }
    }
}

impl Segment {
    pub closed spec fn wf(&self) -> bool {
        &&& self.writer.wf()
        &&& self.writer@.pos == self.writer@.data.len()
        &&& numbers_ok(self.tracks@)
        &&& self.size_pos + 8 <= self.writer@.data.len()
        &&& !self.finalized ==> self.writer@.data.subrange(
            self.size_pos as int,
            self.size_pos + 8,
        ) == unknown_size_field()
        &&& (self.header_written && self.writer@.seekable) ==> self.size_pos + 8
            <= self.duration_pos && self.duration_pos + 8 <= self.writer@.data.len()
        &&& self.cluster_open ==> self.header_written
        &&& self.cluster_tick <= u64::MAX / TIMECODE_SCALE
        &&& self.max_tick <= u64::MAX / TIMECODE_SCALE
        &&& self.writer@.data.len() + self.cues@.len() <= MAX_DOCUMENT
        &&& forall|i: int| 0 <= i < self.blocks@.len() ==> block_time_ok(#[trigger] self.blocks@[i])
    }

    /// Binds a segment to `dest` and writes the EBML header and the opening
    /// of the Segment element, whose size is left unknown until finalization.
    /// Refused where the destination's cursor is not at its end, or where it
    /// is already too full to hold a document.
    pub fn new(dest: Writer) -> (r: Result<Segment, MuxError>)
        requires
            dest.wf(),
        ensures
            r is Ok <==> dest@.pos == dest@.data.len() && dest@.data.len() <= MAX_DOCUMENT - 0x1000,
            r is Err ==> r->Err_0 == MuxError::Binding,
            r is Ok ==> {
                let s = r->Ok_0;
                &&& s.wf()
                &&& s@.data == dest@.data + ebml_header() + id_bytes(0x18538067)
                    + unknown_size_field()
                &&& s@.size_pos == dest@.data.len() + ebml_header().len() + 4
                &&& s@.seekable == dest@.seekable
                &&& s@.tracks.len() == 0
                &&& s@.blocks.len() == 0
                &&& !s@.header_written
                &&& !s@.finalized
                &&& s@.app_name == seq![0x77u8, 0x65u8, 0x62u8, 0x6du8]
                &&& s@.date is None
                &&& !s@.cluster_open
                &&& s@.cues.len() == 0
                &&& s@.max_tick == 0
            },
    {
        let mut dest = dest;
        let start = dest.len();
        if dest.get_position() != start as u64 || start as u64 > MAX_DOCUMENT - 0x1000 {
            return Err(MuxError::Binding);
        }
        let mut body: Vec<u8> = Vec::new();
        push_uint_element(&mut body, 0x4286, 1);
        push_uint_element(&mut body, 0x42F7, 1);
        push_uint_element(&mut body, 0x42F2, 4);
        push_uint_element(&mut body, 0x42F3, 8);
        let doc_type: Vec<u8> = vec![0x77, 0x65, 0x62, 0x6d];
        push_element(&mut body, 0x4282, doc_type.as_slice());
        push_uint_element(&mut body, 0x4287, 4);
        push_uint_element(&mut body, 0x4285, 2);
        proof {
            assert(body@ =~= uint_element(0x4286, 1) + uint_element(0x42F7, 1) + uint_element(0x42F2, 4)
                + uint_element(0x42F3, 8) + element(0x4282, seq![0x77u8, 0x65u8, 0x62u8, 0x6du8])
                + uint_element(0x4287, 4) + uint_element(0x4285, 2));
            crate::ebml::lemma_uint_element_len(0x4286, 1);
            crate::ebml::lemma_uint_element_len(0x42F7, 1);
            crate::ebml::lemma_uint_element_len(0x42F2, 4);
            crate::ebml::lemma_uint_element_len(0x42F3, 8);
            crate::ebml::lemma_uint_element_len(0x4287, 4);
            crate::ebml::lemma_uint_element_len(0x4285, 2);
            crate::ebml::lemma_element_len(0x4282, seq![0x77u8, 0x65u8, 0x62u8, 0x6du8]);
            assert(seq![0x77u8, 0x65u8, 0x62u8, 0x6du8].len() == 4);
            assert(body@.len() <= 100);
        }
        let mut head: Vec<u8> = Vec::new();
        push_element(&mut head, 0x1A45DFA3, body.as_slice());
        proof {
            crate::ebml::lemma_element_len(0x1A45DFA3, body@);
        }
        let header_len = head.len();
        assert(header_len <= 120);
        push_id(&mut head, 0x18538067);
        push_unknown_size(&mut head);
        proof {
            crate::ebml::lemma_element_len(0x1A45DFA3, body@);
            crate::ebml::lemma_be_bytes_len(0x18538067, 4);
            crate::ebml::lemma_be_bytes_len(0x01FF_FFFF_FFFF_FFFF, 8);
        }
        let ghost before = dest@.data;
        dest.write(head.as_slice());
        proof {
            crate::io::lemma_overwritten_at_end(before, head@, dest@.data);
            let sp = start + header_len + 4;
            assert(dest@.data.subrange(sp as int, sp + 8) =~= unknown_size_field());
        }
        Ok(Segment {
            writer: dest,
            tracks: Vec::new(),
            app_name: vec![0x77, 0x65, 0x62, 0x6d],
            has_date: false,
            date_utc: 0,
            header_written: false,
            finalized: false,
            size_pos: (start + header_len + 4) as u64,
            duration_pos: 0,
            cluster_open: false,
            cluster_tick: 0,
            cues: Vec::new(),
            max_tick: 0,
            blocks: Ghost(Seq::empty()),
        })
    }

    /// The track entry a new track starts as.
    pub open spec fn fresh_track(number: nat, kind: TrackKind) -> TrackInfo {
        TrackInfo {
            number: number as u64,
            kind,
            has_color: false,
            color: Color {
                bit_depth: 0,
                subsampling_horz: false,
                subsampling_vert: false,
                full_range: false,
            },
            has_frames: false,
            last_timestamp: 0,
        }
    }

    /// Whether a track may be added with the requested number: tracks are
    /// declared before the header is written, an explicit number is
    /// positive and free, and without one some number up to the bound is free.
    pub open spec fn track_addable(v: SegmentView, id: Option<i32>) -> bool {
        &&& !v.finalized
        &&& !v.header_written
        &&& match id {
            Some(n) => n >= 1 && !number_taken(v.tracks, n as nat),
            None => exists|m: nat| 1 <= m <= MAX_TRACK_NUMBER && !number_taken(v.tracks, m),
        }
    }

    /// The number the new track gets: the requested one, else the lowest free.
    pub open spec fn assigned_number(v: SegmentView, id: Option<i32>, n: nat) -> bool {
        match id {
            Some(k) => n == k as nat,
            None => is_lowest_free(v.tracks, n),
        }
    }

    fn add_track(&mut self, id: Option<i32>, kind: TrackKind) -> (r: Result<u64, MuxError>)
        requires
            old(self).wf(),
        ensures
            final(self).wf(),
            r is Ok <==> Self::track_addable(old(self)@, id),
            r is Err ==> r->Err_0 == MuxError::State && final(self)@ == old(self)@,
            r is Ok ==> Self::assigned_number(old(self)@, id, r->Ok_0 as nat) && final(self)@ == (
            SegmentView {
                tracks: old(self)@.tracks.push(Self::fresh_track(r->Ok_0 as nat, kind)),
                ..old(self)@
            }),
    {
        if self.finalized || self.header_written {
            return Err(MuxError::State);
        }
        let number: u64 = match id {
            Some(n) => {
                if n < 1 {
                    return Err(MuxError::State);
                }
                match find_track(&self.tracks, n as u64) {
                    Some(_) => {
                        return Err(MuxError::State);
                    },
                    None => n as u64,
                }
            },
            None => match lowest_free_number(&self.tracks) {
                Some(n) => {
                    proof {
                        assert(1 <= n as nat <= MAX_TRACK_NUMBER && !number_taken(self.tracks@, n as nat));
                    }
                    n
                },
                None => {
                    proof {
                        assert forall|m: nat| 1 <= m <= MAX_TRACK_NUMBER implies number_taken(self.tracks@, m) by {}
                        assert(!Self::track_addable(self@, id));
                    }
                    return Err(MuxError::State);
                },
            },
        };
        let t = TrackInfo {
            number,
            kind,
            has_color: false,
            color: Color {
                bit_depth: 0,
                subsampling_horz: false,
                subsampling_vert: false,
                full_range: false,
            },
            has_frames: false,
            last_timestamp: 0,
        };
        let ghost before = self.tracks@;
        self.tracks.push(t);
        proof {
            assert(self.tracks@ == before.push(t));
            assert forall|i: int, j: int|
                0 <= i < self.tracks@.len() && 0 <= j < self.tracks@.len() && i != j implies self.tracks@[i].number
                    != self.tracks@[j].number by {
                if i == before.len() as int {
                    assert(!number_taken(before, number as nat));
                    assert(before[j].number != number);
                } else if j == before.len() as int {
                    assert(!number_taken(before, number as nat));
                    assert(before[i].number != number);
                }
            }
        }
        Ok(number)
    }

    /// Adds a video track; without `id` it gets the lowest free number.
    /// Refused with `MuxError::State` after finalization, once the header is
    /// written, for a number below one, or for a number already taken.
    pub fn add_video_track(&mut self, width: u32, height: u32, id: Option<i32>, codec: VideoCodecId) -> (r: Result<VideoTrack, MuxError>)
        requires
            old(self).wf(),
        ensures
            final(self).wf(),
            r is Ok <==> Self::track_addable(old(self)@, id),
            r is Err ==> r->Err_0 == MuxError::State && final(self)@ == old(self)@,
            r is Ok ==> Self::assigned_number(old(self)@, id, r->Ok_0.number as nat) && final(self)@ == (
            SegmentView {
                tracks: old(self)@.tracks.push(
                    Self::fresh_track(r->Ok_0.number as nat, TrackKind::Video { width, height, video_codec: codec }),
                ),
                ..old(self)@
            }),
    {
        match self.add_track(id, TrackKind::Video { width, height, video_codec: codec }) {
            Ok(number) => Ok(VideoTrack { number }),
            Err(e) => Err(e),
        }
    }

    /// Adds an audio track; numbering and refusals as for video tracks.
    pub fn add_audio_track(&mut self, sample_rate: i32, channels: i32, id: Option<i32>, codec: AudioCodecId) -> (r: Result<AudioTrack, MuxError>)
        requires
            old(self).wf(),
        ensures
            final(self).wf(),
            r is Ok <==> Self::track_addable(old(self)@, id),
            r is Err ==> r->Err_0 == MuxError::State && final(self)@ == old(self)@,
            r is Ok ==> Self::assigned_number(old(self)@, id, r->Ok_0.number as nat) && final(self)@ == (
            SegmentView {
                tracks: old(self)@.tracks.push(
                    Self::fresh_track(
                        r->Ok_0.number as nat,
                        TrackKind::Audio { sample_rate, channels, audio_codec: codec },
                    ),
                ),
                ..old(self)@
            }),
    {
        match self.add_track(id, TrackKind::Audio { sample_rate, channels, audio_codec: codec }) {
            Ok(number) => Ok(AudioTrack { number }),
            Err(e) => Err(e),
        }
    }

    /// Sets the writing application named in the header; refused once the
    /// header is written or the segment is finalized.
    pub fn set_app_name(&mut self, name: &str) -> (r: Result<(), MuxError>)
        requires
            old(self).wf(),
        ensures
            final(self).wf(),
            r is Ok <==> !old(self)@.header_written && !old(self)@.finalized,
            r is Err ==> r->Err_0 == MuxError::State && final(self)@ == old(self)@,
            r is Ok ==> final(self)@ == (SegmentView { app_name: name.spec_bytes(), ..old(self)@ }),
    {
        if self.header_written || self.finalized {
            return Err(MuxError::State);
        }
        let b = name.as_bytes();
        let mut v: Vec<u8> = Vec::new();
        crate::ebml::push_all(&mut v, b);
        self.app_name = v;
        Ok(())
    }

    /// Room the header takes in the document until it is written: at most
    /// this many bytes for the Info and Tracks elements.
    pub open spec fn header_room(&self) -> nat {
        if self@.header_written {
            0
        } else {
            self@.app_name.len() + 160 * self@.tracks.len() + 128
        }
    }

    /// Sets DateUTC, in nanoseconds from 0:00 on January 1st, 2001; refused
    /// once the header is written or the segment is finalized.
    pub fn set_date_utc(&mut self, date_utc: i64) -> (r: Result<(), MuxError>)
        requires
            old(self).wf(),
        ensures
            final(self).wf(),
            r is Ok <==> !old(self)@.header_written && !old(self)@.finalized,
            r is Err ==> r->Err_0 == MuxError::State && final(self)@ == old(self)@,
            r is Ok ==> final(self)@ == (SegmentView { date: Some(date_utc), ..old(self)@ }),
    {
        if self.header_written || self.finalized {
            return Err(MuxError::State);
        }
        self.has_date = true;
        self.date_utc = date_utc;
        Ok(())
    }

    /// The bytes written so far.
    pub fn bytes(&self) -> (b: &[u8])
        ensures
            b@ == self@.data,
    {
        self.writer.bytes()
    }

    /// The number of tracks.
    pub fn track_count(&self) -> (n: usize)
        ensures
            n == self@.tracks.len(),
    {
        self.tracks.len()
    }

    /// The track at position `i`, in the order they were added.
    pub fn track_at(&self, i: usize) -> (t: TrackInfo)
        requires
            i < self@.tracks.len(),
        ensures
            t == self@.tracks[i as int],
    {
        self.tracks[i]
    }

    /// The Info element for the current header fields, and where the
    /// Duration payload stands in it when a slot is reserved for it.
    fn info_bytes(&self) -> (r: (Vec<u8>, usize))
        requires
            self.wf(),
            self.app_name@.len() <= MAX_DOCUMENT,
        ensures
            r.1 + 8 <= r.0@.len(),
            r.0@.len() <= self.app_name@.len() + 80,
            r.0@ == element(0x1549A966, info_body(self@.seekable, self@.app_name, self@.date)),
            self@.seekable ==> r.1 == duration_offset(self@),
    {
        let mut info: Vec<u8> = Vec::new();
        push_uint_element(&mut info, 0x2AD7B1, TIMECODE_SCALE);
        proof {
            crate::ebml::lemma_uint_element_len(0x2AD7B1, TIMECODE_SCALE as nat);
        }
        let mut dur_in_info: usize = 0;
        if self.writer.is_seekable() {
            let before = info.len();
            push_float_element(&mut info, 0x4489, 0);
            proof {
                crate::ebml::lemma_be_bytes_len(crate::ebml::f64_bits_of_int(0), 8);
                crate::ebml::lemma_element_len(0x4489, be_bytes(crate::ebml::f64_bits_of_int(0), 8));
            }
            dur_in_info = before + 3;
        }
        let muxing_app: Vec<u8> = vec![0x77, 0x65, 0x62, 0x6d];
        push_element(&mut info, 0x4D80, muxing_app.as_slice());
        push_element(&mut info, 0x5741, self.app_name.as_slice());
        proof {
            crate::ebml::lemma_element_len(0x4D80, muxing_app@);
            crate::ebml::lemma_element_len(0x5741, self.app_name@);
        }
        if self.has_date {
            let mut date: Vec<u8> = Vec::new();
            let raw: u64 = self.date_utc as u64;
            crate::ebml::push_be(&mut date, raw, 8);
            proof {
                crate::ebml::lemma_be_bytes_len(raw as nat, 8);
            }
            push_element(&mut info, 0x4461, date.as_slice());
            proof {
                crate::ebml::lemma_element_len(0x4461, date@);
            }
        }
        proof {
            assert(info@ =~= info_body(self@.seekable, self@.app_name, self@.date));
        }
        let mut out: Vec<u8> = Vec::new();
        push_element(&mut out, 0x1549A966, info.as_slice());
        proof {
            crate::ebml::lemma_element_len(0x1549A966, info@);
            crate::ebml::lemma_be_bytes_len(0x1549A966, 4);
            crate::ebml::lemma_be_bytes_len(
                crate::ebml::size_marker(crate::ebml::size_width(info@.len())) + info@.len(),
                crate::ebml::size_width(info@.len()),
            );
        }
        let dur_pos = out.len() - info.len() + dur_in_info;
        (out, dur_pos)
    }

    /// The Info and Tracks elements for the current header fields and
    /// tracks, and where the Duration payload stands in them when a slot is
    /// reserved for it; `None` where the header would outgrow `MAX_DOCUMENT`.
    fn header_bytes(&self) -> (r: Option<(Vec<u8>, usize)>)
        requires
            self.wf(),
        ensures
            r matches Some((bytes, dur)) ==> dur + 8 <= bytes@.len(),
            self.app_name@.len() + 160 * self.tracks@.len() + 128 <= MAX_DOCUMENT ==> r is Some,
            r matches Some((bytes, dur)) ==> bytes@.len() <= self.app_name@.len() + 160
                * self.tracks@.len() + 128,
            r matches Some((bytes, dur)) ==> bytes@ == header(self@) && (self@.seekable ==> dur
                == duration_offset(self@)),
    {
        if self.app_name.len() as u64 > MAX_DOCUMENT {
            return None;
        }
        let (mut out, dur_pos) = self.info_bytes();
        let mut entries: Vec<u8> = Vec::new();
        let mut i: usize = 0;
        while i < self.tracks.len()
            invariant
                i <= self.tracks@.len(),
                entries@.len() <= 160 * i,
                self.app_name@.len() + 160 * self.tracks@.len() + 128 <= MAX_DOCUMENT ==> entries@.len()
                    <= MAX_DOCUMENT,
                entries@ == track_entries(self.tracks@.take(i as int)),
            decreases self.tracks@.len() - i,
        {
            if entries.len() as u64 > MAX_DOCUMENT {
                return None;
            }
            let entry = track_entry_bytes(self.tracks[i]);
            push_element(&mut entries, 0xAE, entry.as_slice());
            proof {
                crate::ebml::lemma_element_len(0xAE, entry@);
                assert(160 * i + 160 == 160 * (i + 1));
                assert(self.tracks@.take(i + 1).drop_last() =~= self.tracks@.take(i as int));
            }
            i = i + 1;
        }
        if entries.len() as u64 > MAX_DOCUMENT {
            return None;
        }
        proof {
            assert(self.tracks@.take(self.tracks@.len() as int) =~= self.tracks@);
        }
        push_element(&mut out, 0x1654AE6B, entries.as_slice());
        proof {
            crate::ebml::lemma_element_len(0x1654AE6B, entries@);
        }
        Some((out, dur_pos))
    }

    /// Whether `track` has a frame later than `ts`.
    pub open spec fn out_of_order(tracks: Seq<TrackInfo>, track: u64, ts: u64) -> bool {
        exists|i: int|
            0 <= i < tracks.len() && tracks[i].number == track && tracks[i].has_frames && ts
                < tracks[i].last_timestamp
    }

    /// The tracks after a frame at `ts` on `track`.
    pub open spec fn after_frame(tracks: Seq<TrackInfo>, track: u64, ts: u64) -> Seq<TrackInfo> {
        tracks.map_values(
            |t: TrackInfo|
                if t.number == track {
                    TrackInfo { has_frames: true, last_timestamp: ts, ..t }
                } else {
                    t
                },
        )
    }

    /// The bytes a frame at `tick` writes (pending header, cluster start
    /// where one opens, the SimpleBlock), the cue point it records, where the
    /// Duration payload stands in the header, and whether a cluster opens;
    /// `None` where the frame or header is too large to state.
    #[verifier::rlimit(100)]
    fn frame_bytes(&self, track: u64, data: &[u8], tick: u64, keyframe: bool, is_video: bool) -> (r: Option<
        (Vec<u8>, Vec<u8>, usize, bool),
    >)
        requires
            self.wf(),
            !self.finalized,
            1 <= track <= MAX_TRACK_NUMBER,
            tick <= u64::MAX / TIMECODE_SCALE,
        ensures
            r matches Some((pending, cue, dur_off, opens)) ==> {
                let v = self@;
                let base = if opens {
                    tick as nat
                } else {
                    v.cluster_tick
                };
                &&& opens == Self::opens_cluster(v, is_video, keyframe, tick as nat)
                &&& pending@ == pending_header(v) + (if opens {
                    cluster_start(tick as nat)
                } else {
                    Seq::empty()
                }) + simple_block(track as nat, tick - base, keyframe, data@)
                &&& cue@ == if opens && keyframe {
                    cue_point(
                        track as nat,
                        tick as nat,
                        (v.data.len() + pending_header(v).len() - (v.size_pos + 8)) as nat,
                    )
                } else {
                    Seq::empty()
                }
                &&& cue@.len() <= 64
                &&& (!v.header_written && v.seekable) ==> dur_off == duration_offset(v)
                &&& !v.header_written ==> dur_off + 8 <= pending_header(v).len()
            },
            (self.header_room() + data@.len() + 128 <= MAX_DOCUMENT) ==> r is Some,
            r matches Some((pending, cue, dur_off, opens)) ==> pending@.len() <= self.header_room() + data@.len() + 64,
    {
        let mut pending: Vec<u8> = Vec::new();
        let mut dur_off: usize = 0;
        if !self.header_written {
            match self.header_bytes() {
                None => {
                    return None;
                },
                Some((h, d)) => {
                    pending = h;
                    dur_off = d;
                },
            }
        }
        proof {
            assert(pending@ == pending_header(self@));
        }
        let new_cluster = !self.cluster_open || tick + 0x8000 < self.cluster_tick || tick
            > self.cluster_tick + 0x7FFF || (is_video && keyframe && tick >= self.cluster_tick
            + CLUSTER_TICKS);
        let cluster_tick = if new_cluster {
            tick
        } else {
            self.cluster_tick
        };
        let base_len = self.writer.len();
        let cluster_at = pending.len();
        if cluster_at as u64 > MAX_DOCUMENT {
            return None;
        }
        if new_cluster {
            push_cluster_start(&mut pending, tick);
        }
        let rel: i64 = tick as i64 - cluster_tick as i64;
        let block = match block_bytes(track, rel, keyframe, data) {
            None => {
                return None;
            },
            Some(b) => b,
        };

        let ghost before_block = pending@;
        crate::ebml::push_all(&mut pending, block.as_slice());
        proof {
            assert(before_block == pending_header(self@) + (if new_cluster {
                cluster_start(tick as nat)
            } else {
                Seq::empty()
            })) by {
                if !new_cluster {
                    assert(before_block =~= pending_header(self@) + Seq::<u8>::empty());
                }
            }
        }
        let mut cue: Vec<u8> = Vec::new();
        if new_cluster && keyframe {
            let offset: u64 = base_len as u64 + cluster_at as u64 - (self.size_pos + 8);
            cue = cue_point_bytes(track, tick, offset);
        }
        Some((pending, cue, dur_off, new_cluster))
    }

    /// Whether a frame of a track of the given kind at `tick` opens a new
    /// cluster: none is open, the relative tick would leave the signed 16-bit
    /// range, or a video keyframe comes `CLUSTER_TICKS` or more after the
    /// open cluster's base.
    pub open spec fn opens_cluster(v: SegmentView, video: bool, keyframe: bool, tick: nat) -> bool {
        ||| !v.cluster_open
        ||| tick + 0x8000 < v.cluster_tick
        ||| tick > v.cluster_tick + 0x7FFF
        ||| (video && keyframe && tick >= v.cluster_tick + CLUSTER_TICKS)
    }

    /// `v` is `o` after writing a frame: the header if not yet written, a
    /// cluster start with the frame's tick where a cluster opens, then the
    /// SimpleBlock with the tick relative to the cluster's base; a cue point
    /// for a cluster opened on a keyframe; the largest tick raised.
    pub open spec fn frame_written(
        o: SegmentView,
        v: SegmentView,
        track: u64,
        frame: Seq<u8>,
        timestamp_ns: u64,
        keyframe: bool,
    ) -> bool {
        let tick = (timestamp_ns / TIMECODE_SCALE) as nat;
        let opens = Self::opens_cluster(o, has_video_track(o.tracks, track), keyframe, tick);
        let base = if opens {
            tick
        } else {
            o.cluster_tick
        };
        let cluster_at = o.data.len() + pending_header(o).len();
        &&& v.data == o.data + pending_header(o) + (if opens {
            cluster_start(tick)
        } else {
            Seq::empty()
        }) + simple_block(track as nat, tick - base, keyframe, frame)
        &&& v.cues == o.cues + if opens && keyframe {
            cue_point(track as nat, tick, (cluster_at - (o.size_pos + 8)) as nat)
        } else {
            Seq::empty()
        }
        &&& v.cluster_open && v.cluster_tick == base
        &&& v.max_tick == if tick > o.max_tick {
            tick
        } else {
            o.max_tick
        }
        &&& v.header_written && !v.finalized
        &&& v.seekable == o.seekable && v.size_pos == o.size_pos
        &&& v.app_name == o.app_name && v.date == o.date
        &&& o.header_written ==> v.duration_pos == o.duration_pos
        &&& (!o.header_written && o.seekable) ==> v.duration_pos == o.data.len() + duration_offset(o)
    }

    /// Writes one frame of `track` as a SimpleBlock, first writing the
    /// header if this is the first frame and opening a cluster where none is
    /// open, where the relative tick would leave the signed 16-bit range, or
    /// where a video keyframe comes `CLUSTER_TICKS` or more after the
    /// cluster's base. A cluster opened on a keyframe gets a cue point.
    /// Refused with `MuxError::State` after finalization or for an unknown
    /// track, with `MuxError::Ordering` for a timestamp below the track's
    /// previous one, and with `MuxError::Io` where the document would grow
    /// past `MAX_DOCUMENT`; a refused frame changes nothing.
    #[verifier::rlimit(100)]
    #[verifier::spinoff_prover]
    pub fn add_frame(&mut self, track: u64, data: &[u8], timestamp_ns: u64, keyframe: bool) -> (r:
        Result<(), MuxError>)
        requires
            old(self).wf(),
        ensures
            final(self).wf(),
            (old(self)@.finalized || !number_taken(old(self)@.tracks, track as nat)) ==> r
                == Err::<(), MuxError>(MuxError::State),
            (!old(self)@.finalized && number_taken(old(self)@.tracks, track as nat)
                && Self::out_of_order(old(self)@.tracks, track, timestamp_ns)) ==> r == Err::<
                (),
                MuxError,
            >(MuxError::Ordering),
            r is Err ==> final(self)@ == old(self)@ && r->Err_0 != MuxError::Binding,
            (!old(self)@.finalized && number_taken(old(self)@.tracks, track as nat)
                && !Self::out_of_order(old(self)@.tracks, track, timestamp_ns) && old(self)@.data.len()
                + old(self)@.cues.len() + old(self).header_room() + data@.len() + 128 <= MAX_DOCUMENT)
                ==> r is Ok,
            r is Ok ==> {
                let v = final(self)@;
                let b = v.blocks.last();
                &&& !old(self)@.finalized
                &&& number_taken(old(self)@.tracks, track as nat)
                &&& !Self::out_of_order(old(self)@.tracks, track, timestamp_ns)
                &&& v.blocks.len() == old(self)@.blocks.len() + 1
                &&& v.blocks.drop_last() == old(self)@.blocks
                &&& b.track == track && b.timestamp_ns == timestamp_ns && b.keyframe == keyframe
                &&& block_time_ok(b)
                &&& Self::frame_written(old(self)@, v, track, data@, timestamp_ns, keyframe)
                &&& b.cluster_tick == v.cluster_tick
                &&& b.rel == (timestamp_ns / TIMECODE_SCALE) - v.cluster_tick
                &&& v.tracks == Self::after_frame(old(self)@.tracks, track, timestamp_ns)
            },
    {
        if self.finalized {
            return Err(MuxError::State);
        }
        let idx = match find_track(&self.tracks, track) {
            None => {
                return Err(MuxError::State);
            },
            Some(i) => i,
        };
        let t = self.tracks[idx];
        proof {
            assert(number_taken(self.tracks@, track as nat));
            if Self::out_of_order(self.tracks@, track, timestamp_ns) {
                let i = choose|i: int|
                    0 <= i < self.tracks@.len() && self.tracks@[i].number == track
                        && self.tracks@[i].has_frames && timestamp_ns < self.tracks@[i].last_timestamp;
                assert(i == idx);
            }
        }
        if t.has_frames && timestamp_ns < t.last_timestamp {
            return Err(MuxError::Ordering);
        }
        let tick = timestamp_ns / TIMECODE_SCALE;
        proof {
            vstd::arithmetic::div_mod::lemma_div_is_ordered(
                timestamp_ns as int,
                u64::MAX as int,
                TIMECODE_SCALE as int,
            );
        }
        let is_video = match t.kind {
            TrackKind::Video { .. } => true,
            TrackKind::Audio { .. } => false,
        };
        proof {
            if has_video_track(self.tracks@, track) {
                let i = choose|i: int|
                    0 <= i < self.tracks@.len() && self.tracks@[i].number == track
                        && self.tracks@[i].kind is Video;
                assert(i == idx);
            }
            if is_video {
                assert(self.tracks@[idx as int].number == track && self.tracks@[idx as int].kind is Video);
            }
            assert(is_video == has_video_track(self.tracks@, track));
        }
        let (pending, cue, dur_off, new_cluster) = match self.frame_bytes(track, data, tick, keyframe, is_video) {
            None => {
                return Err(MuxError::Io);
            },
            Some(x) => x,
        };
        let ghost o = self@;
        let base_len = self.writer.len();
        let cluster_tick = if new_cluster {
            tick
        } else {
            self.cluster_tick
        };
        let rel: i64 = tick as i64 - cluster_tick as i64;
        if pending.len() as u64 > MAX_DOCUMENT || cue.len() as u64 > MAX_DOCUMENT || base_len as u64
            + self.cues.len() as u64 + pending.len() as u64 + cue.len() as u64 > MAX_DOCUMENT {
            return Err(MuxError::Io);
        }
        let ghost old_data = self.writer@.data;
        self.writer.write(pending.as_slice());
        proof {
            crate::io::lemma_overwritten_at_end(old_data, pending@, self.writer@.data);
            assert(self.writer@.data.subrange(self.size_pos as int, self.size_pos + 8) =~= old_data.subrange(
                self.size_pos as int,
                self.size_pos + 8,
            ));
        }
        let ghost old_cues = self.cues@;
        crate::ebml::push_all(&mut self.cues, cue.as_slice());
        proof {
            if !(new_cluster && keyframe) {
                assert(self.cues@ =~= old_cues + Seq::<u8>::empty());
            }
        }
        if !self.header_written {
            self.header_written = true;
            self.duration_pos = (base_len + dur_off) as u64;
        }
        if new_cluster {
            self.cluster_open = true;
            self.cluster_tick = tick;
        }
        if tick > self.max_tick {
            self.max_tick = tick;
        }
        let ghost old_tracks = self.tracks@;
        self.tracks.set(idx, TrackInfo { has_frames: true, last_timestamp: timestamp_ns, ..t });
        proof {
            assert(self.tracks@ =~= Self::after_frame(old_tracks, track, timestamp_ns));
        }
        let ghost rec = BlockRecord { track, timestamp_ns, keyframe, cluster_tick, rel };
        self.blocks = Ghost(self.blocks@.push(rec));
        proof {
            assert(self.blocks@.drop_last() =~= old(self).blocks@);
            let ghost opt = if new_cluster {
                cluster_start(tick as nat)
            } else {
                Seq::empty()
            };
            assert(self@.data =~= o.data + pending_header(o) + opt + simple_block(
                track as nat,
                tick - cluster_tick,
                keyframe,
                data@,
            ));
            assert(Self::frame_written(o, self@, track, data@, timestamp_ns, keyframe));
        }
        Ok(())
    }

    /// The Duration written at finalization, in ticks: the one asked for,
    /// else the largest frame tick.
    pub open spec fn duration_ticks(duration: Option<u64>, max_tick: nat) -> nat {
        match duration {
            Some(d) => d as nat / TIMECODE_SCALE as nat,
            None => max_tick,
        }
    }

    /// The document once finalization has appended what it owes, before any
    /// patch: the header if no frame wrote it, then the Cues element.
    pub open spec fn finalized_bytes(o: SegmentView) -> Seq<u8> {
        o.data + pending_header(o) + cues_element(o.cues)
    }

    /// `v` is `o` finalized with `duration`: the header written, nothing
    /// before the end rewritten but the Segment size and the Duration slot;
    /// on a seekable destination the size states the payload's length and the
    /// Duration holds the ticks as a double; on an append-only one the size
    /// is still unknown and the old bytes stand as they were.
    pub open spec fn finalized_document(o: SegmentView, duration: Option<u64>, v: SegmentView) -> bool {
        &&& !o.finalized && v.finalized && v.header_written
        &&& v.tracks == o.tracks && v.blocks == o.blocks && v.max_tick == o.max_tick
        &&& v.seekable == o.seekable && v.size_pos == o.size_pos
        &&& o.header_written ==> v.duration_pos == o.duration_pos
        &&& (!o.header_written && o.seekable) ==> v.duration_pos == o.data.len() + duration_offset(o)
        &&& v.cues.len() == 0
        &&& v.app_name == o.app_name && v.date == o.date
        &&& v.data.len() == Self::finalized_bytes(o).len()
        &&& v.size_pos + 8 <= v.data.len() <= MAX_DOCUMENT
        &&& forall|j: int|
            0 <= j < v.data.len() && !(v.size_pos <= j < v.size_pos + 8) && !(v.seekable
                && v.duration_pos <= j < v.duration_pos + 8) ==> #[trigger] v.data[j]
                == Self::finalized_bytes(o)[j]
        &&& !v.seekable ==> v.data == Self::finalized_bytes(o)
        &&& v.seekable ==> v.data.subrange(v.size_pos as int, (v.size_pos + 8) as int) == size_bytes(
            (v.data.len() - (v.size_pos + 8)) as nat,
            8,
        )
        &&& v.seekable ==> v.data.subrange(v.duration_pos as int, (v.duration_pos + 8) as int) == be_bytes(
            f64_bits_of_int(Self::duration_ticks(duration, v.max_tick)),
            8,
        )
        &&& !v.seekable ==> v.data.subrange(v.size_pos as int, (v.size_pos + 8) as int) == unknown_size_field()
    }

    /// Appends what finalization owes (the header if no frame wrote it,
    /// then the Cues element) and marks the segment finalized; `Io` where the
    /// document would outgrow `MAX_DOCUMENT`, changing nothing.
    #[verifier::rlimit(100)]
    fn append_final(&mut self) -> (r: Result<(), MuxError>)
        requires
            old(self).wf(),
            !old(self)@.finalized,
        ensures
            r is Err ==> final(self)@ == old(self)@ && final(self).wf() && r->Err_0 == MuxError::Io,
            (old(self)@.data.len() + old(self)@.cues.len() + old(self).header_room() + 16
                <= MAX_DOCUMENT) ==> r is Ok,
            r is Ok ==> {
                let o = old(self)@;
                let v = final(self)@;
                &&& final(self).wf()
                &&& v.data == Self::finalized_bytes(o)
                &&& v.data.len() <= MAX_DOCUMENT
                &&& v.finalized && v.header_written && v.cues.len() == 0
                &&& v.tracks == o.tracks && v.blocks == o.blocks && v.max_tick == o.max_tick
                &&& v.seekable == o.seekable && v.size_pos == o.size_pos
                &&& v.app_name == o.app_name && v.date == o.date
                &&& o.header_written ==> v.duration_pos == o.duration_pos
                &&& (!o.header_written && o.seekable) ==> v.duration_pos == o.data.len() + duration_offset(o)
                &&& v.seekable ==> v.size_pos + 8 <= v.duration_pos && v.duration_pos + 8 <= v.data.len()
                &&& v.size_pos + 8 <= v.data.len()
                &&& v.data.subrange(v.size_pos as int, (v.size_pos + 8) as int) == unknown_size_field()
            },
    {
        let mut pending: Vec<u8> = Vec::new();
        let mut dur_off: usize = 0;
        if !self.header_written {
            match self.header_bytes() {
                None => {
                    return Err(MuxError::Io);
                },
                Some((h, d)) => {
                    pending = h;
                    dur_off = d;
                },
            }
        }
        if self.cues.len() > 0 {
            if self.cues.len() as u64 > MAX_SIZE {
                return Err(MuxError::Io);
            }
            let ghost ph = pending@;
            push_id(&mut pending, 0x1C53BB6B);
            push_size(&mut pending, self.cues.len() as u64);
            crate::ebml::push_all(&mut pending, self.cues.as_slice());
            proof {
                assert(pending@ =~= ph + element(0x1C53BB6B, self.cues@));
                crate::ebml::lemma_be_bytes_len(0x1C53BB6B, 4);
                crate::ebml::lemma_be_bytes_len(
                    crate::ebml::size_marker(crate::ebml::size_width(self.cues@.len())) + self.cues@.len(),
                    crate::ebml::size_width(self.cues@.len()),
                );
            }
        }
        proof {
            if self.cues@.len() == 0 {
                assert(pending@ =~= pending_header(self@) + cues_element(self.cues@));
            }
            assert(pending@ == pending_header(self@) + cues_element(self.cues@));
        }
        let ghost o = self@;
        let base_len = self.writer.len();
        if pending.len() as u64 > MAX_DOCUMENT || base_len as u64 + pending.len() as u64 > MAX_DOCUMENT {
            return Err(MuxError::Io);
        }
        let ghost old_data = self.writer@.data;
        self.writer.write(pending.as_slice());
        proof {
            crate::io::lemma_overwritten_at_end(old_data, pending@, self.writer@.data);
            assert(self.writer@.data =~= Self::finalized_bytes(o));
            assert(self.writer@.data.subrange(self.size_pos as int, self.size_pos + 8) =~= old_data.subrange(
                self.size_pos as int,
                self.size_pos + 8,
            ));
        }
        if !self.header_written {
            self.header_written = true;
            self.duration_pos = (base_len + dur_off) as u64;
        }
        self.finalized = true;
        self.cues = Vec::new();
        Ok(())
    }

    /// Finalizes the segment in place: writes the header if no frame wrote
    /// it, then the cue index if any cue point was recorded. On a seekable
    /// destination it then patches the Segment's size to the length of its
    /// payload and fills the Duration slot; on an append-only one the size
    /// stays unknown and nothing is rewritten. Refused with
    /// `MuxError::State` when already finalized, and with `MuxError::Io`
    /// where the document would outgrow `MAX_DOCUMENT`; a refusal changes
    /// nothing.
    #[verifier::rlimit(100)]
    #[verifier::spinoff_prover]
    pub fn finish(&mut self, duration: Option<u64>) -> (r: Result<(), MuxError>)
        requires
            old(self).wf(),
        ensures
            final(self).wf(),
            old(self)@.finalized ==> r == Err::<(), MuxError>(MuxError::State),
            r is Err ==> final(self)@ == old(self)@ && r->Err_0 != MuxError::Binding
                && r->Err_0 != MuxError::Ordering,
            (!old(self)@.finalized && old(self)@.data.len() + old(self)@.cues.len() + old(
                self,
            ).header_room() + 16 <= MAX_DOCUMENT) ==> r is Ok,
            r is Ok ==> Self::finalized_document(old(self)@, duration, final(self)@),
    {
        if self.finalized {
            return Err(MuxError::State);
        }
        match self.append_final() {
            Err(e) => {
                return Err(e);
            },
            Ok(()) => {},
        }
        let ghost o = old(self)@;
        let ghost mid = self.writer@.data;
        proof {
            assert(mid == Self::finalized_bytes(o));
        }
        if self.writer.is_seekable() {
            let ticks: u64 = match duration {
                Some(d) => d / TIMECODE_SCALE,
                None => self.max_tick,
            };
            proof {
                vstd::arithmetic::div_mod::lemma_div_is_ordered(
                    ticks as int,
                    u64::MAX as int,
                    TIMECODE_SCALE as int,
                );
                assert(u64::MAX / TIMECODE_SCALE < 0x20_0000_0000_0000);
            }
            patch_size_and_duration(&mut self.writer, self.size_pos, self.duration_pos, ticks);
        }
        proof {
            assert forall|j: int|
                0 <= j < self@.data.len() && !(self@.size_pos <= j < self@.size_pos + 8) && !(
                self@.seekable && self@.duration_pos <= j < self@.duration_pos + 8) implies #[trigger] self@.data[j]
                == Self::finalized_bytes(o)[j] by {}
        }
        Ok(())
    }

    /// Finalizes the segment and hands the destination back: `Ok` when
    /// finalization succeeded, `Err` with the destination as it was left
    /// otherwise. The track handles of this segment are spent.
    pub fn try_finalize(self, duration: Option<u64>) -> (r: Result<Writer, Writer>)
        requires
            self.wf(),
        ensures
            self@.finalized ==> r is Err,
            (!self@.finalized && self@.data.len() + self@.cues.len() + self.header_room() + 16
                <= MAX_DOCUMENT) ==> r is Ok,
            r is Err ==> r->Err_0@.data == self@.data,
            r is Ok ==> r->Ok_0.wf() && exists|v: SegmentView|
                Self::finalized_document(self@, duration, v) && v.data == r->Ok_0@.data,
    {
        let mut s = self;
        let res = s.finish(duration);
        match res {
            Ok(()) => Ok(s.writer),
            Err(_) => Err(s.writer),
        }
    }

    /// Finalizes the segment; whether that succeeded.
    pub fn finalize(self, duration: Option<u64>) -> (ok: bool)
        requires
            self.wf(),
        ensures
            self@.finalized ==> !ok,
            (!self@.finalized && self@.data.len() + self@.cues.len() + self.header_room() + 16
                <= MAX_DOCUMENT) ==> ok,
    {
        self.try_finalize(duration).is_ok()
    }

    pub fn is_finalized(&self) -> (f: bool)
        ensures
            f == self@.finalized,
    {
        self.finalized
    }
}


/// The tracks after giving the video track numbered `n` colour `c`.
pub open spec fn with_color(tracks: Seq<TrackInfo>, n: u64, c: Color) -> Seq<TrackInfo> {
    tracks.map_values(
        |t: TrackInfo|
            if t.number == n {
                TrackInfo { has_color: true, color: c, ..t }
            } else {
                t
            },
    )
}

/// Whether `tracks` holds a video track numbered `n`.
pub open spec fn has_video_track(tracks: Seq<TrackInfo>, n: u64) -> bool {
    exists|i: int| 0 <= i < tracks.len() && tracks[i].number == n && tracks[i].kind is Video
}

impl VideoTrack {
    /// Sets the colour metadata of this track in `segment`: bits per
    /// channel, horizontal and vertical chroma subsampling, and full or
    /// broadcast range. Refused where the track is not a video track of the
    /// segment, or the header is already written.
    pub fn set_color(&self, segment: &mut Segment, bit_depth: u8, subsampling: (bool, bool), full_range: bool) -> (ok: bool)
        requires
            old(segment).wf(),
        ensures
            final(segment).wf(),
            ok <==> !old(segment)@.finalized && !old(segment)@.header_written && has_video_track(
                old(segment)@.tracks,
                self.number,
            ),
            !ok ==> final(segment)@ == old(segment)@,
            ok ==> final(segment)@ == (SegmentView {
                tracks: with_color(
                    old(segment)@.tracks,
                    self.number,
                    Color {
                        bit_depth,
                        subsampling_horz: subsampling.0,
                        subsampling_vert: subsampling.1,
                        full_range,
                    },
                ),
                ..old(segment)@
            }),
    {
        if segment.finalized || segment.header_written {
            return false;
        }
        let idx = match find_track(&segment.tracks, self.number) {
            None => {
                return false;
            },
            Some(i) => i,
        };
        let t = segment.tracks[idx];
        proof {
            if has_video_track(segment.tracks@, self.number) {
                let i = choose|i: int|
                    0 <= i < segment.tracks@.len() && segment.tracks@[i].number == self.number
                        && segment.tracks@[i].kind is Video;
                assert(i == idx);
            }
        }
        match t.kind {
            TrackKind::Audio { .. } => {
                return false;
            },
            TrackKind::Video { .. } => {},
        }
        let (sampling_horz, sampling_vert) = subsampling;
        let c = Color {
            bit_depth,
            subsampling_horz: sampling_horz,
            subsampling_vert: sampling_vert,
            full_range,
        };
        let ghost before = segment.tracks@;
        segment.tracks.set(idx, TrackInfo { has_color: true, color: c, ..t });
        proof {
            assert(segment.tracks@ =~= with_color(before, self.number, c));
        }
        true
    }
}

/// The track numbers of a segment are positive, bounded and distinct.
pub proof fn lemma_track_numbers_distinct(s: &Segment)
    requires
        s.wf(),
    ensures
        numbers_ok(s@.tracks),
{
}

/// On a seekable destination the finalized Segment size field reads back, as
/// a variable-length integer, as the number of bytes that follow it: the
/// document's length less the offset where the Segment's payload starts.
pub proof fn lemma_finalized_size_reparses(o: SegmentView, duration: Option<u64>, v: SegmentView)
    requires
        Segment::finalized_document(o, duration, v),
        v.seekable,
    ensures
        vint_width(v.data[v.size_pos as int]) == 8,
        vint_value(v.data.subrange(v.size_pos as int, (v.size_pos + 8) as int)) == v.data.len() - (v.size_pos
            + 8),
{
    let n = (v.data.len() - (v.size_pos + 8)) as nat;
    assert(n < crate::ebml::size_marker(8));
    crate::ebml::lemma_size_bytes_round_trip(n, 8);
    assert(v.data[v.size_pos as int] == v.data.subrange(v.size_pos as int, (v.size_pos + 8) as int)[0]);
}

/// On an append-only destination finalization succeeds without patching:
/// the Segment size field still reads back as the reserved "size unknown"
/// value, and every byte written before stands unchanged.
pub proof fn lemma_append_only_size_unknown(o: SegmentView, duration: Option<u64>, v: SegmentView)
    requires
        Segment::finalized_document(o, duration, v),
        !v.seekable,
    ensures
        vint_width(v.data[v.size_pos as int]) == 8,
        vint_value(v.data.subrange(v.size_pos as int, (v.size_pos + 8) as int))
            == crate::ebml::size_marker(8) - 1,
        v.data.take(o.data.len() as int) == o.data,
{
    crate::ebml::lemma_size_bytes_round_trip(0xFF_FFFF_FFFF_FFFF, 8);
    assert(v.data[v.size_pos as int] == v.data.subrange(v.size_pos as int, (v.size_pos + 8) as int)[0]);
}

/// In the record of blocks written so far (which `add_frame` ties to the
/// Cluster Timecode and SimpleBlock bytes it writes), each block's cluster
/// base tick plus its relative tick is its timestamp divided by
/// `TIMECODE_SCALE`, rounded down, and the relative tick fits a signed
/// 16-bit field.
pub proof fn lemma_block_times(s: &Segment)
    requires
        s.wf(),
    ensures
        forall|i: int| 0 <= i < s@.blocks.len() ==> block_time_ok(#[trigger] s@.blocks[i]),
{
}

} // verus!
