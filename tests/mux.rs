use webm::ebml::{
    f64_bits_of, push_element, push_size, push_uint_element, push_unknown_size, read_element_header,
    read_vint, ElementHeader,
};
use webm::io::{Reader, Writer};
use webm::mux::{
    AudioCodecId, MuxError, Segment, Track, TrackKind, VideoCodecId, TIMECODE_SCALE,
};

fn find(hay: &[u8], needle: &[u8]) -> Option<usize> {
    if needle.len() > hay.len() {
        return None;
    }
    (0..=hay.len() - needle.len()).find(|&i| &hay[i..i + needle.len()] == needle)
}

fn be(bytes: &[u8]) -> u64 {
    bytes.iter().fold(0u64, |acc, &b| (acc << 8) | b as u64)
}

const SEGMENT_ID: [u8; 4] = [0x18, 0x53, 0x80, 0x67];

#[test]
fn smoke_test() {
    let segment = Segment::new(Writer::new(true));
    assert!(segment.is_ok());
    let segment = segment.unwrap();
    assert!(!segment.is_finalized());
    drop(segment);
}

#[test]
fn new_writes_ebml_header_and_unknown_size_segment() {
    let s = Segment::new(Writer::new(false)).unwrap();
    let b = s.bytes();
    assert_eq!(&b[0..4], &[0x1A, 0x45, 0xDF, 0xA3]);
    assert!(find(b, &[0x42, 0x82, 0x84, b'w', b'e', b'b', b'm']).is_some());
    let p = find(b, &SEGMENT_ID).unwrap();
    assert_eq!(&b[p + 4..], &[0x01, 0xFF, 0xFF, 0xFF, 0xFF, 0xFF, 0xFF, 0xFF]);
}

#[test]
fn new_refuses_cursor_not_at_end() {
    let mut w = Writer::new(true);
    assert!(w.write(&[1, 2, 3]));
    assert!(w.set_position(1));
    assert_eq!(Segment::new(w).err(), Some(MuxError::Binding));
}

#[test]
fn track_numbers_are_assigned_in_order() {
    let mut s = Segment::new(Writer::new(true)).unwrap();
    let a = s.add_video_track(640, 480, None, VideoCodecId::VP8).unwrap();
    let b = s.add_audio_track(48000, 2, None, AudioCodecId::Opus).unwrap();
    let c = s.add_video_track(320, 240, None, VideoCodecId::AV1).unwrap();
    assert_eq!((a.number, b.number, c.number), (1, 2, 3));
    assert!(a.is_video() && !a.is_audio());
    assert!(b.is_audio() && !b.is_video());
    assert_eq!(c.track_number(), 3);
}

#[test]
fn explicit_track_number_taken_fails() {
    let mut s = Segment::new(Writer::new(true)).unwrap();
    assert_eq!(s.add_video_track(640, 480, Some(5), VideoCodecId::VP9).unwrap().number, 5);
    assert_eq!(
        s.add_audio_track(48000, 2, Some(5), AudioCodecId::Vorbis).err(),
        Some(MuxError::State)
    );
    assert_eq!(s.add_audio_track(48000, 2, Some(0), AudioCodecId::Vorbis).err(), Some(MuxError::State));
    assert_eq!(s.add_audio_track(48000, 2, Some(-3), AudioCodecId::Vorbis).err(), Some(MuxError::State));
    assert_eq!(s.track_count(), 1);
}

#[test]
fn lowest_free_number_fills_gaps() {
    let mut s = Segment::new(Writer::new(true)).unwrap();
    s.add_video_track(640, 480, Some(2), VideoCodecId::VP8).unwrap();
    assert_eq!(s.add_audio_track(44100, 1, None, AudioCodecId::Opus).unwrap().number, 1);
    assert_eq!(s.add_audio_track(44100, 1, None, AudioCodecId::Opus).unwrap().number, 3);
}

#[test]
fn add_track_after_finalize_fails() {
    let mut s = Segment::new(Writer::new(true)).unwrap();
    s.add_video_track(640, 480, None, VideoCodecId::VP8).unwrap();
    assert_eq!(s.finish(None), Ok(()));
    let before = s.bytes().to_vec();
    assert_eq!(s.add_video_track(640, 480, None, VideoCodecId::VP8).err(), Some(MuxError::State));
    assert_eq!(s.add_audio_track(48000, 2, Some(9), AudioCodecId::Opus).err(), Some(MuxError::State));
    assert_eq!(s.bytes(), &before[..]);
    assert_eq!(s.finish(None), Err(MuxError::State));
}

#[test]
fn decreasing_timestamp_fails_without_output() {
    let mut s = Segment::new(Writer::new(true)).unwrap();
    let v = s.add_video_track(640, 480, None, VideoCodecId::VP8).unwrap();
    assert_eq!(s.add_frame(v.number, &[1, 2, 3], 100_000_000, true), Ok(()));
    let before = s.bytes().to_vec();
    assert_eq!(s.add_frame(v.number, &[4, 5], 50_000_000, false), Err(MuxError::Ordering));
    assert_eq!(s.bytes(), &before[..]);
    assert_eq!(s.add_frame(v.number, &[4, 5], 100_000_000, false), Ok(()));
}

#[test]
fn frames_on_unknown_track_or_after_finalize_fail() {
    let mut s = Segment::new(Writer::new(true)).unwrap();
    let v = s.add_video_track(640, 480, None, VideoCodecId::VP8).unwrap();
    assert_eq!(s.add_frame(7, &[1], 0, true), Err(MuxError::State));
    assert_eq!(s.finish(None), Ok(()));
    assert_eq!(s.add_frame(v.number, &[1], 0, true), Err(MuxError::State));
}

#[test]
fn header_fields_refused_once_written() {
    let mut s = Segment::new(Writer::new(true)).unwrap();
    assert_eq!(s.set_app_name("tester"), Ok(()));
    assert_eq!(s.set_date_utc(12345), Ok(()));
    let v = s.add_video_track(640, 480, None, VideoCodecId::VP8).unwrap();
    assert!(v.set_color(&mut s, 10, (true, false), true));
    s.add_frame(v.number, &[9], 0, true).unwrap();
    assert!(find(s.bytes(), &[0x57, 0x41, 0x86, b't', b'e', b's', b't', b'e', b'r']).is_some());
    assert!(find(s.bytes(), &[0x55, 0xB2, 0x81, 10]).is_some());
    assert!(find(s.bytes(), &[0x55, 0xB9, 0x81, 2]).is_some());
    assert_eq!(s.set_app_name("late"), Err(MuxError::State));
    assert_eq!(s.set_date_utc(1), Err(MuxError::State));
    assert!(!v.set_color(&mut s, 8, (false, false), false));
}

#[test]
fn set_color_refuses_audio_track() {
    let mut s = Segment::new(Writer::new(true)).unwrap();
    let a = s.add_audio_track(48000, 2, None, AudioCodecId::Opus).unwrap();
    let fake = webm::mux::VideoTrack { number: a.number };
    assert!(!fake.set_color(&mut s, 8, (false, false), false));
}

#[test]
fn empty_frame_is_written() {
    let mut s = Segment::new(Writer::new(false)).unwrap();
    let v = s.add_video_track(16, 16, None, VideoCodecId::VP8).unwrap();
    s.add_frame(v.number, &[], 0, true).unwrap();
    let b = s.bytes();
    assert_eq!(&b[b.len() - 6..], &[0xA3, 0x84, 0x81, 0x00, 0x00, 0x80]);
}

#[test]
fn block_timestamps_are_cluster_relative() {
    let mut s = Segment::new(Writer::new(false)).unwrap();
    let v = s.add_video_track(16, 16, None, VideoCodecId::VP8).unwrap();
    s.add_frame(v.number, &[0xAA], 2_000_000, true).unwrap();
    s.add_frame(v.number, &[0xBB], 5_900_000, false).unwrap();
    let b = s.bytes();
    let c = find(b, &[0x1F, 0x43, 0xB6, 0x75]).unwrap();
    assert_eq!(&b[c + 12..c + 15], &[0xE7, 0x81, 2]);
    assert_eq!(&b[b.len() - 7..], &[0xA3, 0x85, 0x81, 0x00, 3, 0x00, 0xBB]);
    assert_eq!(&b[b.len() - 14..b.len() - 7], &[0xA3, 0x85, 0x81, 0x00, 0, 0x80, 0xAA]);
}

#[test]
fn long_gap_opens_new_cluster() {
    let mut s = Segment::new(Writer::new(false)).unwrap();
    let a = s.add_audio_track(48000, 2, None, AudioCodecId::Opus).unwrap();
    s.add_frame(a.number, &[1], 0, true).unwrap();
    s.add_frame(a.number, &[2], 40_000 * TIMECODE_SCALE, true).unwrap();
    let b = s.bytes();
    let first = find(b, &[0x1F, 0x43, 0xB6, 0x75]).unwrap();
    let second = find(&b[first + 1..], &[0x1F, 0x43, 0xB6, 0x75]).unwrap() + first + 1;
    assert_eq!(&b[second + 12..second + 15], &[0xE7, 0x82, 0x9C]);
}

#[test]
fn seekable_finalize_patches_size_and_duration() {
    let mut s = Segment::new(Writer::new(true)).unwrap();
    let v = s.add_video_track(64, 48, None, VideoCodecId::VP9).unwrap();
    for i in 0..5u64 {
        s.add_frame(v.number, &[i as u8; 10], i * 33_000_000, i % 2 == 0).unwrap();
    }
    let w = s.try_finalize(Some(2_500_000_000)).ok().unwrap();
    let b = w.unwrap();
    let p = find(&b, &SEGMENT_ID).unwrap();
    assert_eq!(b[p + 4], 0x01);
    assert_eq!(be(&b[p + 5..p + 12]) as usize, b.len() - (p + 12));
    let d = find(&b, &[0x44, 0x89, 0x88]).unwrap();
    let dur = f64::from_be_bytes(b[d + 3..d + 11].try_into().unwrap());
    assert_eq!(dur, 2500.0);
    assert!(find(&b, &[0x1C, 0x53, 0xBB, 0x6B]).is_some());
}

#[test]
fn seekable_finalize_without_duration_uses_last_tick() {
    let mut s = Segment::new(Writer::new(true)).unwrap();
    let v = s.add_video_track(64, 48, None, VideoCodecId::H264).unwrap();
    s.add_frame(v.number, &[1], 0, true).unwrap();
    s.add_frame(v.number, &[1], 1_234_567_890, false).unwrap();
    assert!(find(s.bytes(), b"V_MPEG4/ISO/AVC").is_some());
    let b = s.try_finalize(None).ok().unwrap().unwrap();
    let d = find(&b, &[0x44, 0x89, 0x88]).unwrap();
    assert_eq!(f64::from_be_bytes(b[d + 3..d + 11].try_into().unwrap()), 1234.0);
}

#[test]
fn append_only_finalize_keeps_unknown_size() {
    let mut s = Segment::new(Writer::new(false)).unwrap();
    let v = s.add_video_track(64, 48, None, VideoCodecId::VP8).unwrap();
    s.add_frame(v.number, &[7; 4], 0, true).unwrap();
    let before = s.bytes().to_vec();
    let b = s.try_finalize(Some(1_000_000_000)).ok().unwrap().unwrap();
    assert_eq!(&b[..before.len()], &before[..]);
    let p = find(&b, &SEGMENT_ID).unwrap();
    assert_eq!(&b[p + 4..p + 12], &[0x01, 0xFF, 0xFF, 0xFF, 0xFF, 0xFF, 0xFF, 0xFF]);
    assert!(find(&b, &[0x44, 0x89]).is_none());
}

#[test]
fn finalize_reports_success() {
    let s = Segment::new(Writer::new(true)).unwrap();
    assert!(s.finalize(None));
}

#[test]
fn codec_encodings() {
    let mut out = Vec::new();
    push_size(&mut out, 0);
    push_size(&mut out, 126);
    push_size(&mut out, 127);
    push_size(&mut out, 300);
    assert_eq!(out, vec![0x80, 0xFE, 0x40, 0x7F, 0x41, 0x2C]);
    let mut out = Vec::new();
    push_uint_element(&mut out, 0x2AD7B1, 1_000_000);
    assert_eq!(out, vec![0x2A, 0xD7, 0xB1, 0x83, 0x0F, 0x42, 0x40]);
    let mut out = Vec::new();
    push_uint_element(&mut out, 0xD7, 0);
    assert_eq!(out, vec![0xD7, 0x81, 0x00]);
    let mut out = Vec::new();
    push_element(&mut out, 0x86, b"V_VP8");
    assert_eq!(out, vec![0x86, 0x85, b'V', b'_', b'V', b'P', b'8']);
    let mut out = Vec::new();
    push_unknown_size(&mut out);
    assert_eq!(out, vec![0x01, 0xFF, 0xFF, 0xFF, 0xFF, 0xFF, 0xFF, 0xFF]);
}

#[test]
fn integer_doubles() {
    for n in [0u64, 1, 2, 3, 1000, 48000, 44100, 123_456_789, (1u64 << 53) - 1] {
        assert_eq!(f64_bits_of(n), (n as f64).to_bits());
    }
}

#[test]
fn codec_names() {
    assert_eq!(AudioCodecId::Opus.get_id(), b"A_OPUS".to_vec());
    assert_eq!(AudioCodecId::Vorbis.get_id(), b"A_VORBIS".to_vec());
    assert_eq!(VideoCodecId::H265.get_id(), b"V_MPEGH/ISO/HEVC".to_vec());
    assert_eq!(VideoCodecId::Uncompressed.get_id(), b"V_UNCOMPRESSED".to_vec());
    assert_eq!(VideoCodecId::FFV1.get_id(), b"V_FFV1".to_vec());
}

#[test]
fn writer_and_reader_bridges() {
    let mut w = Writer::new(false);
    assert!(w.write(&[1, 2, 3, 4]));
    assert_eq!(w.get_position(), 4);
    assert!(!w.set_position(0));
    assert!(w.set_position(4));
    let mut w2 = Writer::new(true);
    assert!(w2.write(&[1, 2, 3, 4]));
    assert!(w2.set_position(1));
    assert!(w2.write(&[9, 9, 9, 9]));
    assert!(!w2.set_position(9));
    assert_eq!(w2.unwrap(), vec![1, 9, 9, 9, 9]);
    let r = Reader::new(w.unwrap());
    assert_eq!(r.get_length(), (4, 4));
    assert_eq!(r.read_exact(1, 2), Some(vec![2, 3]));
    assert_eq!(r.read_exact(3, 2), None);
}

#[test]
fn vint_decoding() {
    assert_eq!(read_vint(&[0x81], 0), Some((1, 1)));
    assert_eq!(read_vint(&[0x40, 0x7F], 0), Some((127, 2)));
    assert_eq!(read_vint(&[0x00, 0x7F], 0), None);
    assert_eq!(read_vint(&[0x40], 0), None);
    assert_eq!(read_vint(&[0x81], 1), None);
    let mut out = Vec::new();
    push_size(&mut out, 300);
    assert_eq!(read_vint(&out, 0), Some((300, 2)));
    let mut out = Vec::new();
    push_unknown_size(&mut out);
    assert_eq!(read_vint(&out, 0), Some(((1u64 << 56) - 1, 8)));
}

#[test]
fn element_header_decoding() {
    let buf = [0x1A, 0x45, 0xDF, 0xA3, 0x82, 0xAA, 0xBB];
    assert_eq!(
        read_element_header(&buf, 0, 7),
        Some(ElementHeader { id: 0x1A45DFA3, header_len: 5, size: Some(2) })
    );
    // size runs past the parent
    assert_eq!(read_element_header(&buf, 0, 6), None);
    // an ID whose value bits are all zero
    assert_eq!(read_element_header(&[0x80, 0x81, 0x00], 0, 3), None);
    // a size field with no length bit
    assert_eq!(read_element_header(&[0xA3, 0x00, 0x00], 0, 3), None);
    let unknown = [0x1F, 0x43, 0xB6, 0x75, 0x01, 0xFF, 0xFF, 0xFF, 0xFF, 0xFF, 0xFF, 0xFF];
    assert_eq!(
        read_element_header(&unknown, 0, 12),
        Some(ElementHeader { id: 0x1F43B675, header_len: 12, size: None })
    );
}

// Walks a document with the library's element decoder, collecting track
// entries and blocks.
#[derive(Debug, PartialEq)]
struct Parsed {
    tracks: Vec<(u64, u64, Vec<u8>)>,
    blocks: Vec<(u64, i64, bool)>,
}

fn walk(buf: &[u8], mut pos: usize, end: usize, cluster_tick: &mut i64, out: &mut Parsed) {
    while pos < end {
        let h = read_element_header(buf, pos, end).unwrap();
        let body = pos + h.header_len;
        let body_end = match h.size {
            Some(n) => body + n as usize,
            None => end,
        };
        match h.id {
            0x18538067 | 0x1F43B675 | 0x1654AE6B | 0xE0 | 0xE1 => walk(buf, body, body_end, cluster_tick, out),
            0xAE => {
                let mut entry = Parsed { tracks: vec![(0, 0, Vec::new())], blocks: Vec::new() };
                walk(buf, body, body_end, cluster_tick, &mut entry);
                out.tracks.push(entry.tracks.pop().unwrap());
            }
            0xD7 => out.tracks.last_mut().unwrap().0 = be(&buf[body..body_end]),
            0x83 => out.tracks.last_mut().unwrap().1 = be(&buf[body..body_end]),
            0x86 => out.tracks.last_mut().unwrap().2 = buf[body..body_end].to_vec(),
            0xE7 => *cluster_tick = be(&buf[body..body_end]) as i64,
            0xA3 => {
                let (track, tw) = read_vint(buf, body).unwrap();
                let t = body + tw;
                let rel = i16::from_be_bytes([buf[t], buf[t + 1]]) as i64;
                out.blocks.push((track, *cluster_tick + rel, buf[t + 2] & 0x80 != 0));
            }
            _ => {}
        }
        if h.size.is_none() {
            return;
        }
        pos = body_end;
    }
}

#[test]
fn round_trip_through_reader() {
    let mut s = Segment::new(Writer::new(true)).unwrap();
    let v = s.add_video_track(320, 240, None, VideoCodecId::VP8).unwrap();
    let a = s.add_audio_track(48000, 2, None, AudioCodecId::Opus).unwrap();
    let mut expected = Vec::new();
    for k in 0..12u64 {
        let vt = k * 40_000_000;
        s.add_frame(v.number, &[k as u8; 20], vt, k % 2 == 0).unwrap();
        expected.push((v.number, (vt / TIMECODE_SCALE) as i64, k % 2 == 0));
        let at = vt + 20_000_000;
        s.add_frame(a.number, &[0xA0; 8], at, true).unwrap();
        expected.push((a.number, (at / TIMECODE_SCALE) as i64, true));
    }
    let tracks: Vec<_> = (0..s.track_count()).map(|i| s.track_at(i)).collect();
    assert!(matches!(tracks[0].kind, TrackKind::Video { width: 320, height: 240, .. }));
    let bytes = s.try_finalize(None).ok().unwrap().unwrap();
    let r = Reader::new(bytes);
    let (total, available) = r.get_length();
    assert_eq!(total, available);
    let buf = r.read_exact(0, total).unwrap();
    let mut parsed = Parsed { tracks: Vec::new(), blocks: Vec::new() };
    let mut tick = 0i64;
    walk(&buf, 0, buf.len(), &mut tick, &mut parsed);
    assert_eq!(
        parsed.tracks,
        vec![(1, 1, b"V_VP8".to_vec()), (2, 2, b"A_OPUS".to_vec())]
    );
    assert_eq!(parsed.blocks, expected);
}

#[test]
fn append_only_finalize_writes_header_and_cues() {
    let mut s = Segment::new(Writer::new(false)).unwrap();
    let a = s.add_audio_track(48000, 2, None, AudioCodecId::Vorbis).unwrap();
    let before = s.bytes().to_vec();
    assert!(find(&before, &[0x15, 0x49, 0xA9, 0x66]).is_none());
    let b = s.try_finalize(None).ok().unwrap().unwrap();
    assert_eq!(&b[..before.len()], &before[..]);
    assert!(find(&b, &[0x15, 0x49, 0xA9, 0x66]).is_some());
    assert!(find(&b, &[0x16, 0x54, 0xAE, 0x6B]).is_some());
    assert!(find(&b, b"A_VORBIS").is_some());
    assert!(find(&b, &[0x1C, 0x53, 0xBB, 0x6B]).is_none());
    assert_eq!(a.track_number(), 1);

    let mut s = Segment::new(Writer::new(false)).unwrap();
    let v = s.add_video_track(8, 8, None, VideoCodecId::VP8).unwrap();
    s.add_frame(v.number, &[1], 0, true).unwrap();
    let b = s.try_finalize(None).ok().unwrap().unwrap();
    let c = find(&b, &[0x1C, 0x53, 0xBB, 0x6B]).unwrap();
    // one cue point: time 0, track 1
    assert_eq!(&b[c + 5..c + 12], &[0xBB, 0x8B, 0xB3, 0x81, 0x00, 0xB7, 0x86]);
    assert_eq!(&b[c + 12..c + 15], &[0xF7, 0x81, 0x01]);
}
