//! The order in which an input is demuxed, decoded and converted.
//!
//! The work itself is done by a media library. It reports what happened as
//! an [`Event`] and is told what to do next by an [`Action`]. Nothing is
//! skipped: every packet of the chosen stream is sent, every frame converted,
//! and both the decoder and the converter are drained, or the input is
//! refused.

use vstd::prelude::*;

verus! {

/// What a decoded frame says of its samples.
#[derive(Clone, Copy, Debug, PartialEq, Eq, Structural)]
pub struct FrameFormat {
    pub sample_format: i32,
    pub channel_layout: u64,
    pub channel_count: i32,
    pub sample_rate: u32,
}

/// Why an input is refused.
#[derive(Clone, Copy, Debug, PartialEq, Eq, Structural)]
pub enum DecodeError {
    Read,
    Send,
    Receive,
    DecoderFlush,
    Conversion,
    ConverterFlush,
    ChannelCount,
    Metadata,
    SampleRate,
    NoSamples,
    SampleCount,
    /// An event that does not answer the last action.
    Unexpected,
}

impl DecodeError {
    pub open spec fn text(self) -> Seq<char> {
        match self {
            DecodeError::Read => "failed to read input audio packet"@,
            DecodeError::Send => "failed to send input audio packet"@,
            DecodeError::Receive => "failed to decode input audio packet"@,
            DecodeError::DecoderFlush => "failed to flush input audio decoder"@,
            DecodeError::Conversion => "failed to convert input audio samples"@,
            DecodeError::ConverterFlush => "failed to flush input audio conversion"@,
            DecodeError::ChannelCount => "input audio has no channels"@,
            DecodeError::Metadata => "input audio format changed"@,
            DecodeError::SampleRate => "input audio must be sampled at 44.1 or 48 kHz"@,
            DecodeError::NoSamples => "input contains no decoded audio samples"@,
            DecodeError::SampleCount => "input audio sample count exceeds array limits"@,
            DecodeError::Unexpected => "input audio decoding is out of order"@,
        }
    }

    /// The message for the user.
    pub fn message(&self) -> (result: &'static str)
        ensures
            result@ == self.text(),
    {
        match self {
            DecodeError::Read => "failed to read input audio packet",
            DecodeError::Send => "failed to send input audio packet",
            DecodeError::Receive => "failed to decode input audio packet",
            DecodeError::DecoderFlush => "failed to flush input audio decoder",
            DecodeError::Conversion => "failed to convert input audio samples",
            DecodeError::ConverterFlush => "failed to flush input audio conversion",
            DecodeError::ChannelCount => "input audio has no channels",
            DecodeError::Metadata => "input audio format changed",
            DecodeError::SampleRate => "input audio must be sampled at 44.1 or 48 kHz",
            DecodeError::NoSamples => "input contains no decoded audio samples",
            DecodeError::SampleCount => "input audio sample count exceeds array limits",
            DecodeError::Unexpected => "input audio decoding is out of order",
        }
    }
}

/// What the media library reports.
#[derive(Clone, Copy, Debug, PartialEq, Eq, Structural)]
pub enum Event {
    /// A packet of a stream was read.
    Packet { stream: usize },
    /// There are no more packets.
    EndOfPackets,
    /// A packet, or the end of them, was sent to the decoder.
    Sent,
    /// The decoder gave a frame.
    Frame { format: FrameFormat },
    /// The decoder has no frame until it gets another packet.
    NeedsInput,
    /// The decoder has given all its frames.
    DecoderEnd,
    /// A converter was made.
    Opened,
    /// A frame was converted to so many samples of each channel.
    Converted { samples: i32 },
    /// The converter gave so many samples that it had kept; zero when it has
    /// none left.
    Flushed { samples: i32 },
    /// What was asked for failed.
    Failed,
}

/// What the media library is to do.
#[derive(Clone, Copy, Debug, PartialEq, Eq, Structural)]
pub enum Action {
    ReadPacket,
    /// Send the packet that was read to the decoder.
    SendPacket,
    /// Tell the decoder that there are no more packets.
    SendEnd,
    ReceiveFrame,
    /// Make a converter for frames of this format.
    OpenConverter { format: FrameFormat },
    /// Convert the frame that was received.
    Convert,
    /// Get samples that the converter has kept.
    FlushConverter,
    /// Join the converted samples.
    Finish { sample_rate: u32, sample_count: i32 },
    Refuse { error: DecodeError },
}

/// What is being waited for. `ending` says that the decoder knows that there
/// are no more packets.
#[derive(Clone, Copy, Debug, PartialEq, Eq, Structural)]
pub enum Phase {
    Reading,
    Sending { ending: bool },
    Receiving { ending: bool },
    Opening { ending: bool, format: FrameFormat },
    Converting { ending: bool },
    /// The converter is drained before one for another format is made.
    Changing { ending: bool, format: FrameFormat },
    /// The converter is drained for good.
    Draining,
    Finished,
    Refused,
}

/// The state of a decoding.
#[derive(Clone, Copy, Debug, PartialEq, Eq, Structural)]
pub struct Decoding {
    /// The stream whose packets are decoded.
    pub stream: usize,
    pub phase: Phase,
    /// The format that the converter takes.
    pub format: Option<FrameFormat>,
    /// The number of converted samples.
    pub total: i32,
}

/// Whether audio of this rate is accepted.
pub open spec fn rate_accepted(sample_rate: u32) -> bool {
    sample_rate == 44100 || sample_rate == 48000
}

/// A state in which nothing more is done.
pub open spec fn refusal(state: Decoding, error: DecodeError) -> (Decoding, Action) {
    (Decoding { phase: Phase::Refused, ..state }, Action::Refuse { error })
}

/// What the failure of the awaited step means.
pub open spec fn failure(phase: Phase) -> DecodeError {
    match phase {
        Phase::Reading => DecodeError::Read,
        Phase::Sending { ending } => if ending {
            DecodeError::DecoderFlush
        } else {
            DecodeError::Send
        },
        Phase::Receiving { ending } => if ending {
            DecodeError::DecoderFlush
        } else {
            DecodeError::Receive
        },
        Phase::Opening { .. } => DecodeError::Conversion,
        Phase::Converting { .. } => DecodeError::Conversion,
        Phase::Changing { .. } => DecodeError::ConverterFlush,
        Phase::Draining => DecodeError::ConverterFlush,
        _ => DecodeError::Unexpected,
    }
}

/// What follows a frame: the first one opens a converter, a frame in the same
/// format is converted, and one in another format needs another converter.
/// The number of channels and the rate must not change.
pub open spec fn after_frame(state: Decoding, ending: bool, format: FrameFormat) -> (
    Decoding,
    Action,
) {
    if format.channel_count <= 0 {
        refusal(state, DecodeError::ChannelCount)
    } else {
        match state.format {
            None => (
                Decoding { phase: Phase::Opening { ending, format }, ..state },
                Action::OpenConverter { format },
            ),
            Some(current) => if current == format {
                (Decoding { phase: Phase::Converting { ending }, ..state }, Action::Convert)
            } else if current.channel_count == format.channel_count && current.sample_rate
                == format.sample_rate {
                (
                    Decoding { phase: Phase::Changing { ending, format }, ..state },
                    Action::FlushConverter,
                )
            } else {
                refusal(state, DecodeError::Metadata)
            },
        }
    }
}

/// What is made of the audio when everything is drained.
pub open spec fn at_end(state: Decoding) -> (Decoding, Action) {
    match state.format {
        None => refusal(state, DecodeError::NoSamples),
        Some(format) => if !rate_accepted(format.sample_rate) {
            refusal(state, DecodeError::SampleRate)
        } else if state.total == 0 {
            refusal(state, DecodeError::NoSamples)
        } else {
            (
                Decoding { phase: Phase::Finished, ..state },
                Action::Finish { sample_rate: format.sample_rate, sample_count: state.total },
            )
        },
    }
}

/// Adds samples, where the sum can be the size of an array.
pub open spec fn added(
    state: Decoding,
    samples: i32,
    phase: Phase,
    action: Action,
    fault: DecodeError,
) -> (Decoding, Action) {
    if samples < 0 {
        refusal(state, fault)
    } else if state.total + samples > i32::MAX {
        refusal(state, DecodeError::SampleCount)
    } else {
        (Decoding { phase, total: (state.total + samples) as i32, ..state }, action)
    }
}

/// What follows an event.
pub open spec fn next(state: Decoding, event: Event) -> (Decoding, Action) {
    match (state.phase, event) {
        (_, Event::Failed) => refusal(state, failure(state.phase)),
        (Phase::Reading, Event::Packet { stream }) => if stream == state.stream {
            (Decoding { phase: Phase::Sending { ending: false }, ..state }, Action::SendPacket)
        } else {
            (state, Action::ReadPacket)
        },
        (Phase::Reading, Event::EndOfPackets) => (
            Decoding { phase: Phase::Sending { ending: true }, ..state },
            Action::SendEnd,
        ),
        (Phase::Sending { ending }, Event::Sent) => (
            Decoding { phase: Phase::Receiving { ending }, ..state },
            Action::ReceiveFrame,
        ),
        (Phase::Receiving { ending }, Event::Frame { format }) => after_frame(
            state,
            ending,
            format,
        ),
        (Phase::Receiving { ending: false }, Event::NeedsInput) => (
            Decoding { phase: Phase::Reading, ..state },
            Action::ReadPacket,
        ),
        (Phase::Receiving { ending: true }, Event::DecoderEnd) => match state.format {
            None => refusal(state, DecodeError::NoSamples),
            Some(_) => (
                Decoding { phase: Phase::Draining, ..state },
                Action::FlushConverter,
            ),
        },
        (Phase::Opening { ending, format }, Event::Opened) => (
            Decoding { phase: Phase::Converting { ending }, format: Some(format), ..state },
            Action::Convert,
        ),
        (Phase::Converting { ending }, Event::Converted { samples }) => added(
            state,
            samples,
            Phase::Receiving { ending },
            Action::ReceiveFrame,
            DecodeError::Conversion,
        ),
        (Phase::Changing { ending, format }, Event::Flushed { samples }) => if samples == 0 {
            (
                Decoding { phase: Phase::Opening { ending, format }, ..state },
                Action::OpenConverter { format },
            )
        } else {
            added(
                state,
                samples,
                state.phase,
                Action::FlushConverter,
                DecodeError::ConverterFlush,
            )
        },
        (Phase::Draining, Event::Flushed { samples }) => if samples == 0 {
            at_end(state)
        } else {
            added(
                state,
                samples,
                state.phase,
                Action::FlushConverter,
                DecodeError::ConverterFlush,
            )
        },
        _ => refusal(state, DecodeError::Unexpected),
    }
}

/// The state after some events, from the start.
pub open spec fn run(stream: usize, events: Seq<Event>) -> (Decoding, Action)
    decreases events.len(),
{
    if events.len() == 0 {
        (
            Decoding { stream, phase: Phase::Reading, format: None, total: 0 },
            Action::ReadPacket,
        )
    } else {
        next(run(stream, events.drop_last()).0, events.last())
    }
}

impl Decoding {
    /// Whether the count of samples is one.
    pub open spec fn valid(self) -> bool {
        self.total >= 0
    }

    /// Starts to decode one stream of an input.
    pub fn new(stream: usize) -> (result: (Self, Action))
        ensures
            result == run(stream, seq![]),
            result.0.valid(),
    {
        (
            Decoding { stream, phase: Phase::Reading, format: None, total: 0 },
            Action::ReadPacket,
        )
    }

    /// Nothing more is done.
    fn refuse(&mut self, error: DecodeError) -> (action: Action)
        ensures
            (*final(self), action) == refusal(*old(self), error),
    {
        self.phase = Phase::Refused;
        Action::Refuse { error }
    }

    /// See [`failure`].
    fn failed(&self) -> (error: DecodeError)
        ensures
            error == failure(self.phase),
    {
        match self.phase {
            Phase::Reading => DecodeError::Read,
            Phase::Sending { ending: false } => DecodeError::Send,
            Phase::Receiving { ending: false } => DecodeError::Receive,
            Phase::Sending { .. } | Phase::Receiving { .. } => DecodeError::DecoderFlush,
            Phase::Opening { .. } | Phase::Converting { .. } => DecodeError::Conversion,
            Phase::Changing { .. } | Phase::Draining => DecodeError::ConverterFlush,
            _ => DecodeError::Unexpected,
        }
    }

    /// See [`after_frame`].
    fn frame(&mut self, ending: bool, format: FrameFormat) -> (action: Action)
        ensures
            (*final(self), action) == after_frame(*old(self), ending, format),
    {
        if format.channel_count <= 0 {
            return self.refuse(DecodeError::ChannelCount);
        }
        match self.format {
            None => {
                self.phase = Phase::Opening { ending, format };
                Action::OpenConverter { format }
            },
            Some(current) => {
                if current == format {
                    self.phase = Phase::Converting { ending };
                    Action::Convert
                } else if current.channel_count == format.channel_count && current.sample_rate
                    == format.sample_rate {
                    self.phase = Phase::Changing { ending, format };
                    Action::FlushConverter
                } else {
                    self.refuse(DecodeError::Metadata)
                }
            },
        }
    }

    /// See [`added`].
    fn add_samples(
        &mut self,
        samples: i32,
        phase: Phase,
        action: Action,
        fault: DecodeError,
    ) -> (result: Action)
        requires
            old(self).valid(),
        ensures
            (*final(self), result) == added(*old(self), samples, phase, action, fault),
            final(self).valid(),
    {
        if samples < 0 {
            return self.refuse(fault);
        }
        match self.total.checked_add(samples) {
            None => self.refuse(DecodeError::SampleCount),
            Some(total) => {
                self.total = total;
                self.phase = phase;
                action
            },
        }
    }

    /// See [`at_end`].
    fn end(&mut self) -> (action: Action)
        ensures
            (*final(self), action) == at_end(*old(self)),
    {
        match self.format {
            None => self.refuse(DecodeError::NoSamples),
            Some(format) => {
                if format.sample_rate != 44100 && format.sample_rate != 48000 {
                    self.refuse(DecodeError::SampleRate)
                } else if self.total == 0 {
                    self.refuse(DecodeError::NoSamples)
                } else {
                    self.phase = Phase::Finished;
                    Action::Finish { sample_rate: format.sample_rate, sample_count: self.total }
                }
            },
        }
    }

    /// Takes an event and says what is to be done next.
    pub fn step(&mut self, event: Event) -> (action: Action)
        requires
            old(self).valid(),
        ensures
            (*final(self), action) == next(*old(self), event),
            final(self).valid(),
    {
        match (self.phase, event) {
            (_, Event::Failed) => {
                let error = self.failed();
                self.refuse(error)
            },
            (Phase::Reading, Event::Packet { stream }) => {
                if stream == self.stream {
                    self.phase = Phase::Sending { ending: false };
                    Action::SendPacket
                } else {
                    Action::ReadPacket
                }
            },
            (Phase::Reading, Event::EndOfPackets) => {
                self.phase = Phase::Sending { ending: true };
                Action::SendEnd
            },
            (Phase::Sending { ending }, Event::Sent) => {
                self.phase = Phase::Receiving { ending };
                Action::ReceiveFrame
            },
            (Phase::Receiving { ending }, Event::Frame { format }) => self.frame(ending, format),
            (Phase::Receiving { ending: false }, Event::NeedsInput) => {
                self.phase = Phase::Reading;
                Action::ReadPacket
            },
            (Phase::Receiving { ending: true }, Event::DecoderEnd) => {
                if self.format.is_none() {
                    self.refuse(DecodeError::NoSamples)
                } else {
                    self.phase = Phase::Draining;
                    Action::FlushConverter
                }
            },
            (Phase::Opening { ending, format }, Event::Opened) => {
                self.format = Some(format);
                self.phase = Phase::Converting { ending };
                Action::Convert
            },
            (Phase::Converting { ending }, Event::Converted { samples }) => self.add_samples(
                samples,
                Phase::Receiving { ending },
                Action::ReceiveFrame,
                DecodeError::Conversion,
            ),
            (Phase::Changing { ending, format }, Event::Flushed { samples }) => {
                if samples == 0 {
                    self.phase = Phase::Opening { ending, format };
                    Action::OpenConverter { format }
                } else {
                    self.add_samples(
                        samples,
                        Phase::Changing { ending, format },
                        Action::FlushConverter,
                        DecodeError::ConverterFlush,
                    )
                }
            },
            (Phase::Draining, Event::Flushed { samples }) => {
                if samples == 0 {
                    self.end()
                } else {
                    self.add_samples(
                        samples,
                        Phase::Draining,
                        Action::FlushConverter,
                        DecodeError::ConverterFlush,
                    )
                }
            },
            _ => self.refuse(DecodeError::Unexpected),
        }
    }
}

/// The samples that some events brought.
pub open spec fn samples_of(events: Seq<Event>) -> int
    decreases events.len(),
{
    if events.len() == 0 {
        0
    } else {
        samples_of(events.drop_last()) + match events.last() {
            Event::Converted { samples } => samples as int,
            Event::Flushed { samples } => samples as int,
            _ => 0,
        }
    }
}

/// How many frames came.
pub open spec fn frames_of(events: Seq<Event>) -> int
    decreases events.len(),
{
    if events.len() == 0 {
        0
    } else {
        frames_of(events.drop_last()) + if events.last() is Frame {
            1int
        } else {
            0
        }
    }
}

/// How many frames were converted.
pub open spec fn conversions_of(events: Seq<Event>) -> int
    decreases events.len(),
{
    if events.len() == 0 {
        0
    } else {
        conversions_of(events.drop_last()) + if events.last() is Converted {
            1int
        } else {
            0
        }
    }
}

/// Whether the decoder was told that there are no more packets.
pub open spec fn ending_known(phase: Phase) -> bool {
    match phase {
        Phase::Sending { ending } => ending,
        Phase::Receiving { ending } => ending,
        Phase::Opening { ending, .. } => ending,
        Phase::Converting { ending } => ending,
        Phase::Changing { ending, .. } => ending,
        Phase::Draining => true,
        Phase::Finished => true,
        _ => false,
    }
}

/// What holds on the way, unless the input was refused: the samples are
/// counted, and at most one frame is on its way to be converted.
proof fn lemma_run(stream: usize, events: Seq<Event>)
    ensures
        ({
            let state = run(stream, events).0;
            state.phase is Refused || {
                &&& state.stream == stream
                &&& state.total == samples_of(events)
                &&& state.total >= 0
                &&& frames_of(events) == conversions_of(events) + if state.phase is Opening
                    || state.phase is Converting || state.phase is Changing {
                    1int
                } else {
                    0
                }
                &&& ending_known(state.phase) ==> events.contains(Event::EndOfPackets)
                &&& state.phase is Draining || state.phase is Finished ==> events.contains(
                    Event::DecoderEnd,
                )
                &&& state.phase is Finished ==> events.last() == Event::Flushed { samples: 0 }
                &&& state.format matches Some(format) ==> format.channel_count > 0
                &&& state.phase matches Phase::Opening { format, .. } ==> format.channel_count > 0
                &&& state.phase matches Phase::Changing { format, .. } ==> format.channel_count > 0
            }
        }),
    decreases events.len(),
{
    if events.len() > 0 {
        let before = events.drop_last();
        lemma_run(stream, before);
        assert forall|event: Event| before.contains(event) implies #[trigger] events.contains(
            event,
        ) by {
            let i = choose|i: int| 0 <= i < before.len() && before[i] == event;
            assert(events[i] == event);
        }
        assert(events.contains(events.last())) by {
            assert(events[events.len() - 1] == events.last());
        }
    }
}

/// Audio is only made of an input that was read to its end: the decoder and
/// the converter were drained, every frame was converted, and the samples are
/// all those that the converter gave. There is at least one, and their rate
/// is accepted.
pub proof fn lemma_complete(stream: usize, events: Seq<Event>)
    requires
        run(stream, events).1 is Finish,
    ensures
        events.contains(Event::EndOfPackets),
        events.contains(Event::DecoderEnd),
        events.last() == (Event::Flushed { samples: 0 }),
        frames_of(events) == conversions_of(events),
        run(stream, events).1 matches Action::Finish { sample_rate, sample_count }
            && rate_accepted(sample_rate) && sample_count == samples_of(events) && sample_count
            > 0,
{
    lemma_run(stream, events);
    if events.len() > 0 {
        lemma_run(stream, events.drop_last());
    }
}

/// Only packets of the chosen stream are sent.
pub proof fn lemma_own_packets(stream: usize, events: Seq<Event>)
    requires
        run(stream, events).1 is SendPacket,
    ensures
        events.last() == (Event::Packet { stream }),
{
    lemma_run(stream, events.drop_last());
}

/// Packets are read one after another: one of the chosen stream is sent to the
/// decoder, one of another stream is passed over, and when there are no more the
/// decoder is told. After each of these the decoder is asked for frames until it
/// needs another packet or has come to its end. Then the converter is drained.
pub proof fn lemma_packets(state: Decoding, stream: usize)
    ensures
        state.phase is Reading ==> {
            &&& stream == state.stream ==> next(state, Event::Packet { stream }).1
                == Action::SendPacket
            &&& stream != state.stream ==> next(state, Event::Packet { stream }) == (
                state,
                Action::ReadPacket,
            )
            &&& next(state, Event::EndOfPackets).1 == Action::SendEnd
        },
        state.phase is Sending ==> next(state, Event::Sent).1 == Action::ReceiveFrame,
        state.phase is Reading ==> next(
            next(next(state, Event::EndOfPackets).0, Event::Sent).0,
            Event::DecoderEnd,
        ).1 == if state.format is Some {
            Action::FlushConverter
        } else {
            Action::Refuse { error: DecodeError::NoSamples }
        },
        state.phase == (Phase::Receiving { ending: false }) ==> next(state, Event::NeedsInput) == (
            Decoding { phase: Phase::Reading, ..state },
            Action::ReadPacket,
        ),
{
}

/// A failure refuses the input, whatever was being done, and a refused input
/// stays refused.
pub proof fn lemma_refused(state: Decoding, event: Event)
    ensures
        next(state, Event::Failed).1 is Refuse,
        next(state, event).1 is Refuse <==> next(state, event).0.phase is Refused,
        state.phase is Refused ==> next(state, event).1 is Refuse,
{
}

/// What follows a frame, with a channel or more: the first one opens a converter
/// for its format, one in the format of the converter is converted, and one in
/// another format with the same channels and rate first has the converter
/// drained. Only a change of the channels or the rate is refused. A frame
/// without channels always is.
pub proof fn lemma_frame(state: Decoding, ending: bool, format: FrameFormat)
    requires
        state.phase == (Phase::Receiving { ending }),
    ensures
        ({
            let (after, action) = next(state, Event::Frame { format });
            &&& format.channel_count >= 1 && state.format is None ==> action
                == Action::OpenConverter { format } && after.phase == Phase::Opening {
                ending,
                format,
            }
            &&& format.channel_count >= 1 && state.format == Some(format) ==> action
                == Action::Convert && after.phase == Phase::Converting { ending }
            &&& format.channel_count >= 1 && state.format is Some && state.format->0 != format
                && state.format->0.channel_count == format.channel_count
                && state.format->0.sample_rate == format.sample_rate ==> action
                == Action::FlushConverter && after.phase == Phase::Changing { ending, format }
            &&& format.channel_count >= 1 && state.format is Some && (
            state.format->0.channel_count != format.channel_count || state.format->0.sample_rate
                != format.sample_rate) ==> action == Action::Refuse {
                error: DecodeError::Metadata,
            }
            &&& format.channel_count <= 0 ==> action == Action::Refuse {
                error: DecodeError::ChannelCount,
            }
            &&& after.total == state.total
            &&& after.format == state.format
            &&& after.stream == state.stream
        }),
{
}

/// What follows samples: they are counted, and a converter that is drained is
/// asked again until it has none left. Then the next one is opened for the frame
/// that is waiting.
pub proof fn lemma_samples(state: Decoding, samples: i32)
    requires
        state.valid(),
        samples >= 0,
    ensures
        state.total + samples > i32::MAX && (state.phase is Converting || state.phase is Changing
            || state.phase is Draining) && samples > 0 ==> next(
            state,
            if state.phase is Converting {
                Event::Converted { samples }
            } else {
                Event::Flushed { samples }
            },
        ).1 == (Action::Refuse { error: DecodeError::SampleCount }),
        state.total + samples <= i32::MAX ==> {
            let converted = next(state, Event::Converted { samples });
            let flushed = next(state, Event::Flushed { samples });
            &&& state.phase matches Phase::Converting { ending } ==> converted.1
                == Action::ReceiveFrame && converted.0.phase == Phase::Receiving { ending }
                && converted.0.total == state.total + samples && converted.0.format == state.format
            &&& state.phase is Changing || state.phase is Draining ==> samples > 0 ==> flushed.1
                == Action::FlushConverter && flushed.0.phase == state.phase && flushed.0.total
                == state.total + samples && flushed.0.format == state.format
            &&& state.phase matches Phase::Changing { ending, format } ==> samples == 0
                ==> flushed.1 == (Action::OpenConverter { format }) && flushed.0.phase == (
            Phase::Opening { ending, format }) && flushed.0.total == state.total
        },
{
}

/// Whether an event answers what was to be done, without a failure. Until the
/// packets end the decoder asks for more, and then it comes to its end.
pub open spec fn answers(state: Decoding, action: Action, event: Event) -> bool {
    match action {
        Action::ReadPacket => event is Packet || event is EndOfPackets,
        Action::SendPacket => event is Sent,
        Action::SendEnd => event is Sent,
        Action::ReceiveFrame => {
            ||| event is Frame
            ||| event is NeedsInput && state.phase == (Phase::Receiving { ending: false })
            ||| event is DecoderEnd && state.phase == (Phase::Receiving { ending: true })
        },
        Action::OpenConverter { .. } => event is Opened,
        Action::Convert => event matches Event::Converted { samples } && samples >= 0,
        Action::FlushConverter => event matches Event::Flushed { samples } && samples >= 0,
        _ => false,
    }
}

/// Whether each event answers what was to be done, and the frames have so many
/// channels and this rate.
pub open spec fn steady(
    stream: usize,
    events: Seq<Event>,
    channel_count: i32,
    sample_rate: u32,
) -> bool
    decreases events.len(),
{
    events.len() == 0 || {
        let (state, action) = run(stream, events.drop_last());
        &&& steady(stream, events.drop_last(), channel_count, sample_rate)
        &&& answers(state, action, events.last())
        &&& events.last() matches Event::Frame { format } ==> format.channel_count == channel_count
            && format.sample_rate == sample_rate
    }
}

/// The format of the frame that came last.
pub open spec fn last_format(events: Seq<Event>) -> Option<FrameFormat>
    decreases events.len(),
{
    if events.len() == 0 {
        None
    } else {
        match events.last() {
            Event::Frame { format } => Some(format),
            _ => last_format(events.drop_last()),
        }
    }
}

/// What is waited for after each action.
spec fn awaited(phase: Phase, action: Action) -> bool {
    match phase {
        Phase::Reading => action is ReadPacket,
        Phase::Sending { ending } => if ending {
            action is SendEnd
        } else {
            action is SendPacket
        },
        Phase::Receiving { .. } => action is ReceiveFrame,
        Phase::Opening { format, .. } => action == (Action::OpenConverter { format }),
        Phase::Converting { .. } => action is Convert,
        Phase::Changing { .. } => action is FlushConverter,
        Phase::Draining => action is FlushConverter,
        Phase::Finished => action is Finish,
        Phase::Refused => action is Refuse,
    }
}

/// What the state says of the events before it, unless the input was refused.
proof fn lemma_awaited(stream: usize, events: Seq<Event>)
    ensures
        ({
            let (state, action) = run(stream, events);
            &&& awaited(state.phase, action)
            &&& state.phase is Refused || {
                &&& events.contains(Event::EndOfPackets) ==> ending_known(state.phase)
                &&& events.contains(Event::DecoderEnd) ==> state.phase is Draining
                    || state.phase is Finished
                &&& state.format is None ==> state.total == 0
                &&& state.phase matches Phase::Opening { format, .. } ==> last_format(events)
                    == Some(format)
                &&& state.phase matches Phase::Changing { format, .. } ==> last_format(events)
                    == Some(format) && state.format is Some
                &&& state.phase is Converting ==> state.format is Some && last_format(events)
                    == state.format
                &&& state.phase is Draining || state.phase is Finished ==> state.format is Some
                &&& !(state.phase is Opening || state.phase is Changing) ==> last_format(events)
                    == state.format
            }
        }),
    decreases events.len(),
{
    if events.len() > 0 {
        let before = events.drop_last();
        lemma_awaited(stream, before);
        assert forall|event: Event| #[trigger] events.contains(event) implies before.contains(event)
            || event == events.last() by {
            let i = choose|i: int| 0 <= i < events.len() && events[i] == event;
            if i < before.len() {
                assert(before[i] == event);
            }
        }
    }
}

/// A frame is converted by a converter for its own format, and one is only
/// opened for the frame that came last: at once, or when the one before it
/// has nothing left.
pub proof fn lemma_own_converter(stream: usize, events: Seq<Event>)
    ensures
        run(stream, events).1 is Convert ==> run(stream, events).0.format == last_format(events)
            && last_format(events) is Some,
        run(stream, events).1 matches Action::OpenConverter { format } ==> Some(format)
            == last_format(events) && (events.last() == (Event::Frame { format }) || events.last()
            == Event::Flushed { samples: 0 }),
{
    lemma_awaited(stream, events);
    if events.len() > 0 {
        lemma_awaited(stream, events.drop_last());
    }
}

/// What a failure is called, by what was being done.
pub proof fn lemma_failed(stream: usize, events: Seq<Event>)
    ensures
        next(run(stream, events).0, Event::Failed).1 is Refuse,
        next(run(stream, events).0, Event::Failed).1 matches Action::Refuse { error } ==> match run(
            stream,
            events,
        ).1 {
            Action::ReadPacket => error == DecodeError::Read,
            Action::SendPacket => error == DecodeError::Send,
            Action::SendEnd => error == DecodeError::DecoderFlush,
            Action::ReceiveFrame => error == if events.contains(Event::EndOfPackets) {
                DecodeError::DecoderFlush
            } else {
                DecodeError::Receive
            },
            Action::OpenConverter { .. } => error == DecodeError::Conversion,
            Action::Convert => error == DecodeError::Conversion,
            Action::FlushConverter => error == DecodeError::ConverterFlush,
            _ => true,
        },
{
    lemma_awaited(stream, events);
    lemma_run(stream, events);
}

/// An input whose frames agree in a channel count of at least one and a rate,
/// and of which nothing fails, is never refused on the way. It is refused at its
/// end, for a rate other than 44.1 and 48 kHz or for want of samples. Else all
/// its samples are joined, once the converter has nothing left after the end of
/// the decoder.
pub proof fn lemma_steady_input(
    stream: usize,
    events: Seq<Event>,
    channel_count: i32,
    sample_rate: u32,
)
    requires
        steady(stream, events, channel_count, sample_rate),
        channel_count >= 1,
        samples_of(events) <= i32::MAX,
    ensures
        run(stream, events).1 is Refuse ==> {
            &&& events.contains(Event::EndOfPackets)
            &&& events.contains(Event::DecoderEnd)
            &&& run(stream, events).1 == (Action::Refuse { error: DecodeError::SampleRate })
                && sample_rate != 44100 && sample_rate != 48000 || run(stream, events).1 == (
            Action::Refuse { error: DecodeError::NoSamples }) && samples_of(events) == 0
        },
        events.contains(Event::DecoderEnd) && events.last() == (Event::Flushed { samples: 0 }) && (
        sample_rate == 44100 || sample_rate == 48000) && samples_of(events) > 0 ==> run(
            stream,
            events,
        ).1 == (Action::Finish { sample_rate, sample_count: samples_of(events) as i32 }),
        events.contains(Event::DecoderEnd) && events.last() == (Event::Flushed { samples: 0 })
            && sample_rate != 44100 && sample_rate != 48000 ==> run(stream, events).1 == (
        Action::Refuse { error: DecodeError::SampleRate }),
{
    lemma_steady_states(stream, events, channel_count, sample_rate);
    lemma_run(stream, events);
    if events.len() > 0 {
        let before = events.drop_last();
        lemma_steady_counts(stream, before, channel_count, sample_rate);
        lemma_steady_states(stream, before, channel_count, sample_rate);
        lemma_run(stream, before);
        lemma_awaited(stream, before);
        if events.contains(Event::DecoderEnd) && events.last() == (Event::Flushed { samples: 0 }) {
            let i = choose|i: int| 0 <= i < events.len() && events[i] == Event::DecoderEnd;
            assert(before[i] == Event::DecoderEnd);
        }
    }
}

/// See [`lemma_steady_input`].
proof fn lemma_steady_states(
    stream: usize,
    events: Seq<Event>,
    channel_count: i32,
    sample_rate: u32,
)
    requires
        steady(stream, events, channel_count, sample_rate),
        channel_count >= 1,
        samples_of(events) <= i32::MAX,
    ensures
        ({
            let (state, action) = run(stream, events);
            &&& state.format matches Some(format) ==> format.channel_count == channel_count
                && format.sample_rate == sample_rate
            &&& state.phase matches Phase::Opening { format, .. } ==> format.channel_count
                == channel_count && format.sample_rate == sample_rate
            &&& state.phase matches Phase::Changing { format, .. } ==> format.channel_count
                == channel_count && format.sample_rate == sample_rate
            &&& state.phase is Refused ==> {
                &&& events.contains(Event::EndOfPackets)
                &&& events.contains(Event::DecoderEnd)
                &&& action == (Action::Refuse { error: DecodeError::SampleRate })
                    && sample_rate != 44100 && sample_rate != 48000 || action == (
                Action::Refuse { error: DecodeError::NoSamples }) && samples_of(events) == 0
            }
        }),
    decreases events.len(),
{
    lemma_awaited(stream, events);
    if events.len() > 0 {
        let before = events.drop_last();
        lemma_steady_counts(stream, before, channel_count, sample_rate);
        lemma_steady_states(stream, before, channel_count, sample_rate);
        lemma_run(stream, before);
        lemma_awaited(stream, before);
        assert(answers(run(stream, before).0, run(stream, before).1, events.last()));
        assert forall|event: Event| before.contains(event) implies #[trigger] events.contains(
            event,
        ) by {
            let i = choose|i: int| 0 <= i < before.len() && before[i] == event;
            assert(events[i] == event);
        }
        assert(events.contains(events.last())) by {
            assert(events[events.len() - 1] == events.last());
        }
    }
}

/// What is counted does not become less.
proof fn lemma_steady_counts(
    stream: usize,
    events: Seq<Event>,
    channel_count: i32,
    sample_rate: u32,
)
    requires
        steady(stream, events, channel_count, sample_rate),
    ensures
        samples_of(events) >= 0,
    decreases events.len(),
{
    if events.len() > 0 {
        lemma_steady_counts(stream, events.drop_last(), channel_count, sample_rate);
        lemma_awaited(stream, events.drop_last());
    }
}

} // verus!
