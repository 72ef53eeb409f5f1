use sovits_svc::audio::avio::{upload_name, CursorError, MemoryCursor, UploadError};
use sovits_svc::audio::decode::{Action, DecodeError, Decoding, Event, FrameFormat, Phase};

const SIZE: i32 = 0x10000;
const FORCE: i32 = 0x20000;

#[test]
fn bytes_are_read_in_order() {
    let bytes = [1_u8, 2, 3, 4, 5];
    let mut cursor = MemoryCursor::new(&bytes).unwrap();
    assert_eq!(cursor.read_packet(2), Ok(&bytes[0..2]));
    assert_eq!(cursor.read_packet(100), Ok(&bytes[2..5]));
    assert_eq!(cursor.read_packet(1), Err(CursorError::EndOfFile));
    assert_eq!(cursor.read_packet(0), Err(CursorError::Invalid));
    assert_eq!(cursor.read_packet(-1), Err(CursorError::Invalid));
}

#[test]
fn seeks_from_all_origins() {
    let bytes = [1_u8, 2, 3, 4, 5];
    let mut cursor = MemoryCursor::new(&bytes).unwrap();
    assert_eq!(cursor.seek(3, libc::SEEK_SET), Ok(3));
    assert_eq!(cursor.read_packet(1), Ok(&bytes[3..4]));
    assert_eq!(cursor.seek(-2, libc::SEEK_CUR), Ok(2));
    assert_eq!(cursor.read_packet(1), Ok(&bytes[2..3]));
    assert_eq!(cursor.seek(-1, libc::SEEK_END | FORCE), Ok(4));
    assert_eq!(cursor.read_packet(9), Ok(&bytes[4..5]));
    assert_eq!(cursor.seek(0, libc::SEEK_END), Ok(5));
    assert_eq!(cursor.read_packet(9), Err(CursorError::EndOfFile));
}

#[test]
fn size_queries_do_not_move() {
    let bytes = [1_u8, 2, 3];
    let mut cursor = MemoryCursor::new(&bytes).unwrap();
    assert_eq!(cursor.seek(1, libc::SEEK_SET), Ok(1));
    assert_eq!(cursor.seek(77, SIZE), Ok(3));
    assert_eq!(cursor.seek(-77, SIZE | FORCE), Ok(3));
    assert_eq!(cursor.read_packet(9), Ok(&bytes[1..3]));
}

#[test]
fn refused_seeks_do_not_move() {
    let bytes = [1_u8, 2, 3];
    let mut cursor = MemoryCursor::new(&bytes).unwrap();
    assert_eq!(cursor.seek(2, libc::SEEK_SET), Ok(2));
    assert_eq!(cursor.seek(-1, libc::SEEK_SET), Err(CursorError::Invalid));
    assert_eq!(cursor.seek(4, libc::SEEK_SET), Err(CursorError::Invalid));
    assert_eq!(cursor.seek(2, libc::SEEK_CUR), Err(CursorError::Invalid));
    assert_eq!(cursor.seek(i64::MAX, libc::SEEK_CUR), Err(CursorError::Overflow));
    assert_eq!(cursor.seek(i64::MAX, libc::SEEK_END), Err(CursorError::Overflow));
    assert_eq!(cursor.seek(0, 3), Err(CursorError::Invalid));
    assert_eq!(cursor.seek(0, -1 & !SIZE), Err(CursorError::Invalid));
    assert_eq!(cursor.read_packet(9), Ok(&bytes[2..3]));
}

#[test]
fn empty_uploads_are_refused() {
    assert!(matches!(MemoryCursor::new(&[]), Err(UploadError::Empty)));
    assert_eq!(UploadError::Empty.message(), "uploaded audio is empty");
}

#[test]
fn upload_names_carry_the_extension() {
    assert_eq!(upload_name("").unwrap(), "upload");
    assert_eq!(upload_name("wav").unwrap(), "upload.wav");
    assert_eq!(upload_name(".m4a").unwrap(), "upload.m4a");
    assert_eq!(upload_name("...tar.gz").unwrap(), "upload.tar.gz");
    assert_eq!(upload_name(".").unwrap(), "upload.");
    assert_eq!(upload_name("a\0b"), Err(UploadError::Extension));
    assert_eq!(UploadError::Extension.message(), "uploaded audio extension contains NUL");
}

fn stereo(sample_rate: u32) -> FrameFormat {
    FrameFormat {
        sample_format: 8,
        channel_layout: 3,
        channel_count: 2,
        sample_rate,
    }
}

fn play(stream: usize, events: &[Event]) -> (Decoding, Action) {
    let (mut decoding, mut action) = Decoding::new(stream);
    for &event in events {
        action = decoding.step(event);
    }
    (decoding, action)
}

fn until_draining(format: FrameFormat, samples: i32) -> Vec<Event> {
    vec![
        Event::Packet { stream: 1 },
        Event::Sent,
        Event::Frame { format },
        Event::Opened,
        Event::Converted { samples },
        Event::NeedsInput,
        Event::EndOfPackets,
        Event::Sent,
        Event::DecoderEnd,
    ]
}

#[test]
fn actions_in_order() {
    let format = stereo(48000);
    let (mut decoding, first) = Decoding::new(1);
    assert_eq!(first, Action::ReadPacket);
    let steps = [
        (Event::Packet { stream: 0 }, Action::ReadPacket),
        (Event::Packet { stream: 1 }, Action::SendPacket),
        (Event::Sent, Action::ReceiveFrame),
        (Event::Frame { format }, Action::OpenConverter { format }),
        (Event::Opened, Action::Convert),
        (Event::Converted { samples: 1000 }, Action::ReceiveFrame),
        (Event::Frame { format }, Action::Convert),
        (Event::Converted { samples: 24 }, Action::ReceiveFrame),
        (Event::NeedsInput, Action::ReadPacket),
        (Event::EndOfPackets, Action::SendEnd),
        (Event::Sent, Action::ReceiveFrame),
        (Event::Frame { format }, Action::Convert),
        (Event::Converted { samples: 7 }, Action::ReceiveFrame),
        (Event::DecoderEnd, Action::FlushConverter),
        (Event::Flushed { samples: 5 }, Action::FlushConverter),
    ];
    for (event, expected) in steps {
        assert_eq!(decoding.step(event), expected);
    }
    assert_eq!(
        decoding.step(Event::Flushed { samples: 0 }),
        Action::Finish {
            sample_rate: 48000,
            sample_count: 1036
        }
    );
    assert_eq!(decoding.phase, Phase::Finished);
}

#[test]
fn other_sample_formats_get_another_converter() {
    let first = stereo(44100);
    let second = FrameFormat {
        sample_format: 3,
        ..first
    };
    let (mut decoding, _) = play(
        1,
        &[
            Event::Packet { stream: 1 },
            Event::Sent,
            Event::Frame { format: first },
            Event::Opened,
            Event::Converted { samples: 10 },
        ],
    );
    assert_eq!(decoding.step(Event::Frame { format: second }), Action::FlushConverter);
    assert_eq!(decoding.step(Event::Flushed { samples: 2 }), Action::FlushConverter);
    assert_eq!(
        decoding.step(Event::Flushed { samples: 0 }),
        Action::OpenConverter { format: second }
    );
    assert_eq!(decoding.step(Event::Opened), Action::Convert);
    assert_eq!(decoding.step(Event::Converted { samples: 4 }), Action::ReceiveFrame);
    assert_eq!(decoding.total, 16);
    assert_eq!(decoding.format, Some(second));
}

fn refused_with(events: &[Event]) -> DecodeError {
    match play(1, events) {
        (decoding, Action::Refuse { error }) => {
            assert_eq!(decoding.phase, Phase::Refused);
            error
        }
        (_, action) => panic!("not refused: {action:?}"),
    }
}

#[test]
fn every_failure_is_reported() {
    let format = stereo(44100);
    let steps = [
        (Event::Packet { stream: 1 }, DecodeError::Read),
        (Event::Sent, DecodeError::Send),
        (Event::Frame { format }, DecodeError::Receive),
        (Event::Opened, DecodeError::Conversion),
        (Event::Converted { samples: 1 }, DecodeError::Conversion),
        (Event::NeedsInput, DecodeError::Receive),
        (Event::EndOfPackets, DecodeError::Read),
        (Event::Sent, DecodeError::DecoderFlush),
        (Event::DecoderEnd, DecodeError::DecoderFlush),
        (Event::Flushed { samples: 0 }, DecodeError::ConverterFlush),
    ];
    let mut events: Vec<Event> = Vec::new();
    for (event, error) in steps {
        let mut failing = events.clone();
        failing.push(Event::Failed);
        assert_eq!(refused_with(&failing), error);
        events.push(event);
    }
}

#[test]
fn unfit_audio_is_refused() {
    let drained = |format: FrameFormat, samples: i32| {
        let mut events = until_draining(format, samples);
        events.push(Event::Flushed { samples: 0 });
        refused_with(&events)
    };
    assert_eq!(drained(stereo(22050), 10), DecodeError::SampleRate);
    assert_eq!(drained(stereo(44100), 0), DecodeError::NoSamples);
    let silent = FrameFormat {
        channel_count: 0,
        ..stereo(44100)
    };
    let frame = |format: FrameFormat| {
        vec![Event::Packet { stream: 1 }, Event::Sent, Event::Frame { format }]
    };
    assert_eq!(refused_with(&frame(silent)), DecodeError::ChannelCount);
    let mut changed = until_draining(stereo(44100), 1)[..5].to_vec();
    changed.push(Event::Frame {
        format: stereo(48000),
    });
    assert_eq!(refused_with(&changed), DecodeError::Metadata);
    assert_eq!(
        refused_with(&[Event::EndOfPackets, Event::Sent, Event::DecoderEnd]),
        DecodeError::NoSamples
    );
    let mut long = until_draining(stereo(44100), i32::MAX);
    long.push(Event::Flushed { samples: 1 });
    assert_eq!(refused_with(&long), DecodeError::SampleCount);
    assert_eq!(refused_with(&[Event::Sent]), DecodeError::Unexpected);
    assert_eq!(refused_with(&[Event::Failed, Event::EndOfPackets]), DecodeError::Unexpected);
}

#[test]
fn decode_messages() {
    assert_eq!(
        DecodeError::SampleRate.message(),
        "input audio must be sampled at 44.1 or 48 kHz"
    );
    assert_eq!(DecodeError::NoSamples.message(), "input contains no decoded audio samples");
    assert_eq!(DecodeError::Read.message(), "failed to read input audio packet");
    assert_eq!(DecodeError::Receive.message(), "failed to decode input audio packet");
}
