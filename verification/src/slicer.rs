//! Cutting a waveform into silent and sounding slices.

use crate::lengths;
use crate::shapes;
use crate::shapes::FrameLayout;
use crate::single::Single;
use vstd::prelude::*;

verus! {

/// A range of samples that is silent as a whole or to be converted.
#[derive(Clone, Copy, Debug, PartialEq, Eq, Structural)]
pub struct AudioSlice {
    pub silent: bool,
    pub start: i32,
    pub end: i32,
}

/// The rules by which silence is found, in frames of `hop_size` samples.
#[derive(Clone, Copy, Debug, PartialEq, Eq, Structural)]
pub struct Slicer {
    /// Frames below this level are silent.
    pub threshold: Single,
    pub hop_size: i32,
    pub window_size: i32,
    /// Frames that a slice holds at least before a silence may end it.
    pub minimum_length: i32,
    /// Frames that a silence holds at least to count as one.
    pub minimum_interval: i32,
    /// Frames of silence that stay with the sound next to them at most.
    pub maximum_silence_kept: i32,
}

#[derive(Clone, Copy, Debug, PartialEq, Eq, Structural)]
pub enum SlicerError {
    /// The minimum length, minimum interval and hop size do not decrease.
    LengthOrder,
    /// The silence kept is shorter than a hop.
    SilenceKept,
    SampleRate,
    /// The waveform is not a single row of samples.
    Shape,
}

impl SlicerError {
    pub open spec fn text(self) -> Seq<char> {
        match self {
            SlicerError::LengthOrder =>
                "minimum_length_ms >= minimum_interval_ms >= hop_size_ms is required"@,
            SlicerError::SilenceKept => "maximum_silence_kept_ms must be at least hop_size_ms"@,
            SlicerError::SampleRate => "sample rate must be positive"@,
            SlicerError::Shape => "slicer input must have shape [1, samples]"@,
        }
    }

    /// The message for the user.
    pub fn message(&self) -> (result: &'static str)
        ensures
            result@ == self.text(),
    {
        match self {
            SlicerError::LengthOrder =>
                "minimum_length_ms >= minimum_interval_ms >= hop_size_ms is required",
            SlicerError::SilenceKept => "maximum_silence_kept_ms must be at least hop_size_ms",
            SlicerError::SampleRate => "sample rate must be positive",
            SlicerError::Shape => "slicer input must have shape [1, samples]",
        }
    }
}

/// The frame at which the level is lowest between `start` and `end`, the
/// first of several. What is no number is lower than nothing.
pub open spec fn lowest(levels: Seq<Single>, start: int, end: int) -> int
    decreases end - start,
{
    if end <= start + 1 {
        start
    } else {
        let before = lowest(levels, start, end - 1);
        if levels[end - 1].less(levels[before]) {
            end - 1
        } else {
            before
        }
    }
}

/// What is known of the silences after some frames.
pub struct Scan {
    /// The silences found, as ranges of frames.
    pub tags: Seq<(int, int)>,
    /// Where the current silence began.
    pub silence: Option<int>,
    /// Where the current slice began.
    pub clip: int,
}

impl Slicer {
    /// Whether the rules can be applied.
    pub open spec fn usable(self) -> bool {
        &&& self.hop_size > 0
        &&& self.window_size > 0
        &&& self.minimum_length >= 0
        &&& self.maximum_silence_kept >= 0
    }

    /// The number of frames over `sample_count` samples.
    pub open spec fn frame_count(self, sample_count: int) -> int {
        shapes::frames_in(
            sample_count + 2 * (self.window_size as int / 2),
            self.window_size as int,
            self.hop_size as int,
        )
    }

    /// The silence between a start and a sounding frame, when it counts.
    pub open spec fn tag(self, levels: Seq<Single>, start: int, index: int) -> (int, int) {
        let kept = self.maximum_silence_kept as int;
        if index - start <= kept {
            let position = lowest(levels, start, index + 1);
            (if start == 0 {
                0
            } else {
                position
            }, position)
        } else if index - start <= kept * 2 {
            let position = lowest(levels, index - kept, start + kept + 1);
            let left = lowest(levels, start, start + kept + 1);
            let right = lowest(levels, index - kept, index + 1);
            if start == 0 {
                (0, right)
            } else {
                (vstd::math::min(left, position), vstd::math::max(right, position))
            }
        } else {
            let left = lowest(levels, start, start + kept + 1);
            let right = lowest(levels, index - kept, index + 1);
            (if start == 0 {
                0
            } else {
                left
            }, right)
        }
    }

    /// Whether a silence from `start` to `index` counts.
    pub open spec fn counts(self, start: int, index: int, clip: int) -> bool {
        ||| start == 0 && index > self.maximum_silence_kept
        ||| index - start >= self.minimum_interval && index - clip >= self.minimum_length
    }

    /// The scan after the first `count` frames.
    pub open spec fn scan(self, levels: Seq<Single>, count: nat) -> Scan
        decreases count,
    {
        if count == 0 {
            Scan { tags: seq![], silence: None, clip: 0 }
        } else {
            let index = count - 1;
            let before = self.scan(levels, index as nat);
            if levels[index].less(self.threshold) {
                Scan {
                    silence: if before.silence is Some {
                        before.silence
                    } else {
                        Some(index)
                    },
                    ..before
                }
            } else {
                match before.silence {
                    None => before,
                    Some(start) => if self.counts(start, index, before.clip) {
                        let tag = self.tag(levels, start, index);
                        Scan { tags: before.tags.push(tag), silence: None, clip: tag.1 }
                    } else {
                        Scan { silence: None, ..before }
                    },
                }
            }
        }
    }

    /// All silences, the one at the end included.
    pub open spec fn silences(self, levels: Seq<Single>) -> Seq<(int, int)> {
        let count = levels.len() as int;
        let scan = self.scan(levels, levels.len());
        match scan.silence {
            Some(start) if count - start >= self.minimum_interval => {
                let end = vstd::math::min(count, start + self.maximum_silence_kept);
                scan.tags.push((lowest(levels, start, vstd::math::min(end + 1, count)), count + 1))
            },
            _ => scan.tags,
        }
    }

    /// The slices that end with the first `count` silences.
    pub open spec fn cut(self, tags: Seq<(int, int)>, count: nat, sample_count: int) -> Seq<
        AudioSlice,
    >
        decreases count,
    {
        if count == 0 {
            seq![]
        } else {
            let hop = self.hop_size as int;
            let tag = tags[count - 1];
            let from = if count == 1 {
                0
            } else {
                tags[count - 2].1 * hop
            };
            self.cut(tags, (count - 1) as nat, sample_count) + piece(
                false,
                from,
                vstd::math::min(sample_count, tag.0 * hop),
            ) + piece(true, tag.0 * hop, vstd::math::min(sample_count, tag.1 * hop))
        }
    }

    /// The slices of a waveform, given the level of each frame.
    pub open spec fn slices(self, sample_count: int, levels: Seq<Single>) -> Seq<AudioSlice> {
        let tags = self.silences(levels);
        if sample_count <= self.minimum_length || tags.len() == 0 {
            seq![AudioSlice { silent: false, start: 0, end: sample_count as i32 }]
        } else {
            let trailing = tags.last().1 * self.hop_size;
            self.cut(tags, tags.len(), sample_count) + if trailing < sample_count {
                piece(false, trailing, sample_count)
            } else {
                seq![]
            }
        }
    }
}

/// A slice, unless it is empty.
pub open spec fn piece(silent: bool, start: int, end: int) -> Seq<AudioSlice> {
    if start == end {
        seq![]
    } else {
        seq![AudioSlice { silent, start: start as i32, end: end as i32 }]
    }
}

/// Whether slices follow one another without gaps from `from` to `to`, none
/// of them empty.
pub open spec fn contiguous(slices: Seq<AudioSlice>, from: int, to: int) -> bool {
    &&& forall|i: int| 0 <= i < slices.len() ==> (#[trigger] slices[i]).start < slices[i].end
    &&& forall|i: int, j: int|
        0 <= i && j == i + 1 && j < slices.len() ==> (#[trigger] slices[i]).end == (
        #[trigger] slices[j]).start
    &&& if slices.len() == 0 {
        from == to
    } else {
        slices[0].start == from && slices.last().end == to
    }
}

/// No slice starts before the first.
proof fn lemma_contiguous_start(slices: Seq<AudioSlice>, from: int, to: int, index: int)
    requires
        contiguous(slices, from, to),
        0 <= index < slices.len(),
    ensures
        from <= slices[index].start,
    decreases index,
{
    if index > 0 {
        lemma_contiguous_start(slices, from, to, index - 1);
        assert(slices[index - 1].end == slices[index].start);
    }
}

/// No slice ends after the last.
proof fn lemma_contiguous_end(slices: Seq<AudioSlice>, from: int, to: int, index: int)
    requires
        contiguous(slices, from, to),
        0 <= index < slices.len(),
    ensures
        slices[index].end <= to,
    decreases slices.len() - index,
{
    if index < slices.len() - 1 {
        lemma_contiguous_end(slices, from, to, index + 1);
        assert(slices[index].end == slices[index + 1].start);
    }
}

/// A later slice starts where an earlier one ends, or after that.
proof fn lemma_contiguous_order(
    slices: Seq<AudioSlice>,
    from: int,
    to: int,
    earlier: int,
    later: int,
)
    requires
        contiguous(slices, from, to),
        0 <= earlier < later < slices.len(),
    ensures
        slices[earlier].end <= slices[later].start,
        later > earlier + 1 ==> slices[earlier].end < slices[later].start,
    decreases later - earlier,
{
    if later == earlier + 1 {
        assert(slices[earlier].end == slices[later].start);
    } else {
        lemma_contiguous_order(slices, from, to, earlier, later - 1);
        assert(slices[later - 1].end == slices[later].start);
        assert(slices[later - 1].start < slices[later - 1].end);
    }
}

/// Slices that follow one another without gaps cover what lies between.
pub proof fn lemma_contiguous_covers(slices: Seq<AudioSlice>, from: int, to: int, sample: int)
    requires
        contiguous(slices, from, to),
        from <= sample < to,
    ensures
        exists|i: int|
            0 <= i < slices.len() && (#[trigger] slices[i]).start <= sample < slices[i].end,
        forall|i: int, j: int|
            0 <= i < j < slices.len() ==> (#[trigger] slices[i]).end <= (
            #[trigger] slices[j]).start,
    decreases slices.len(),
{
    assert forall|i: int, j: int| 0 <= i < j < slices.len() implies (#[trigger] slices[i]).end <= (
    #[trigger] slices[j]).start by {
        lemma_contiguous_order(slices, from, to, i, j);
    }
    let last = slices.len() - 1;
    if slices[last].start <= sample {
        assert(slices[last].start <= sample < slices[last].end);
    } else {
        let rest = slices.drop_last();
        assert(rest.len() > 0) by {
            if rest.len() == 0 {
                assert(slices[0] == slices.last());
            }
        }
        assert(slices[last - 1].end == slices[last].start);
        assert(contiguous(rest, from, slices[last].start as int)) by {
            assert(rest.last() == slices[last - 1]);
            assert forall|i: int| 0 <= i < rest.len() implies (#[trigger] rest[i]).start
                < rest[i].end by {
                assert(slices[i].start < slices[i].end);
            }
            assert forall|i: int, j: int| 0 <= i && j == i + 1 && j < rest.len() implies (
            #[trigger] rest[i]).end == (#[trigger] rest[j]).start by {
                assert(slices[i].end == slices[j].start);
            }
        }
        lemma_contiguous_covers(rest, from, slices[last].start as int, sample);
        let i = choose|i: int|
            0 <= i < rest.len() && (#[trigger] rest[i]).start <= sample < rest[i].end;
        assert(slices[i] == rest[i]);
    }
}

/// Whether no two silent slices follow one another.
pub open spec fn alternating(slices: Seq<AudioSlice>) -> bool {
    forall|i: int, j: int|
        0 <= i && j == i + 1 && j < slices.len() ==> !((#[trigger] slices[i]).silent && (
        #[trigger] slices[j]).silent)
}

/// Whether silences follow one another, with sound between them, and end by
/// `limit`.
pub open spec fn ordered(tags: Seq<(int, int)>, limit: int) -> bool {
    &&& forall|i: int| 0 <= i < tags.len() ==> 0 <= (#[trigger] tags[i]).0 <= tags[i].1
    &&& forall|i: int, j: int|
        0 <= i < j < tags.len() ==> (#[trigger] tags[i]).1 < (#[trigger] tags[j]).0
    &&& tags.len() > 0 ==> tags.last().1 <= limit
}

/// The lowest frame lies in the range.
pub proof fn lemma_lowest_range(levels: Seq<Single>, start: int, end: int)
    requires
        start < end,
    ensures
        start <= lowest(levels, start, end) < end,
    decreases end - start,
{
    if end > start + 1 {
        lemma_lowest_range(levels, start, end - 1);
    }
}

/// Where every level is a number, none is below the one at the lowest frame,
/// and all before it are above.
pub proof fn lemma_lowest_is_least(levels: Seq<Single>, start: int, end: int)
    requires
        0 <= start < end <= levels.len(),
        forall|i: int| start <= i < end ==> !(#[trigger] levels[i]).is_nan(),
    ensures
        forall|i: int|
            start <= i < end ==> (#[trigger] levels[i]).at_least(
                levels[lowest(levels, start, end)],
            ),
        forall|i: int|
            start <= i < lowest(levels, start, end) ==> levels[lowest(levels, start, end)].less(
                #[trigger] levels[i],
            ),
    decreases end - start,
{
    lemma_lowest_range(levels, start, end);
    if end > start + 1 {
        lemma_lowest_range(levels, start, end - 1);
        lemma_lowest_is_least(levels, start, end - 1);
    }
}

impl Slicer {
    /// A silence lies between the frames that bound it.
    proof fn lemma_tag_range(self, levels: Seq<Single>, start: int, index: int)
        requires
            self.usable(),
            0 <= start < index,
        ensures
            start <= self.tag(levels, start, index).0 <= self.tag(levels, start, index).1 <= index,
    {
        let kept = self.maximum_silence_kept as int;
        if index - start <= kept {
            lemma_lowest_range(levels, start, index + 1);
        } else {
            if index - start <= kept * 2 {
                lemma_lowest_range(levels, index - kept, start + kept + 1);
            }
            lemma_lowest_range(levels, start, start + kept + 1);
            lemma_lowest_range(levels, index - kept, index + 1);
        }
    }

    /// At every frame, the silences found so far are in order and behind it.
    pub proof fn lemma_scan_ordered(self, levels: Seq<Single>, count: nat)
        requires
            self.usable(),
        ensures
            ordered(self.scan(levels, count).tags, count - 1),
            self.scan(levels, count).silence matches Some(start) ==> {
                &&& 0 <= start < count
                &&& self.scan(levels, count).tags.len() > 0 ==> self.scan(
                    levels,
                    count,
                ).tags.last().1 < start
            },
            0 <= self.scan(levels, count).clip <= count,
        decreases count,
    {
        if count > 0 {
            let index = count - 1;
            self.lemma_scan_ordered(levels, index as nat);
            let before = self.scan(levels, index as nat);
            if let Some(start) = before.silence {
                self.lemma_tag_range(levels, start, index);
            }
        }
    }

    /// All silences are in order; only the one at the end may reach past the
    /// last frame.
    pub proof fn lemma_silences_ordered(self, levels: Seq<Single>)
        requires
            self.usable(),
        ensures
            ordered(self.silences(levels), levels.len() as int + 1),
            forall|i: int|
                0 <= i < self.silences(levels).len() ==> {
                    &&& (#[trigger] self.silences(levels)[i]).0 < levels.len()
                    &&& self.silences(levels)[i].1 < levels.len() || (self.silences(levels)[i].1
                        == levels.len() + 1 && i == self.silences(levels).len() - 1)
                },
    {
        let count = levels.len() as int;
        self.lemma_scan_ordered(levels, levels.len());
        let scan = self.scan(levels, levels.len());
        if let Some(start) = scan.silence {
            let end = vstd::math::min(count, start + self.maximum_silence_kept);
            lemma_lowest_range(levels, start, vstd::math::min(end + 1, count));
        }
    }

    /// The slices that end with some silences lie side by side.
    proof fn lemma_cut_contiguous(
        self,
        tags: Seq<(int, int)>,
        count: nat,
        sample_count: int,
    )
        requires
            self.usable(),
            count <= tags.len(),
            0 <= sample_count <= i32::MAX,
            ordered(tags, tags.last().1),
            forall|i: int|
                0 <= i < tags.len() ==> 0 <= (#[trigger] tags[i]).0 * self.hop_size <= sample_count,
            forall|i: int|
                0 <= i < tags.len() - 1 ==> 0 <= (#[trigger] tags[i]).1 * self.hop_size
                    <= sample_count,
        ensures
            contiguous(
                self.cut(tags, count, sample_count),
                0,
                if count == 0 {
                    0
                } else {
                    vstd::math::min(sample_count, tags[count - 1].1 * self.hop_size)
                },
            ),
        decreases count,
    {
        if count > 0 {
            let hop = self.hop_size as int;
            self.lemma_cut_contiguous(tags, (count - 1) as nat, sample_count);
            let tag = tags[count - 1];
            let before = self.cut(tags, (count - 1) as nat, sample_count);
            assert(tag.0 * hop <= tag.1 * hop) by (nonlinear_arith)
                requires
                    tag.0 <= tag.1,
                    hop > 0,
            ;
            let from = if count == 1 {
                0
            } else {
                tags[count - 2].1 * hop
            };
            if count > 1 {
                let previous = tags[count - 2];
                assert(previous.1 * hop <= tag.0 * hop) by (nonlinear_arith)
                    requires
                        previous.1 < tag.0,
                        hop > 0,
                ;
            }
            let middle = vstd::math::min(sample_count, tag.0 * hop);
            let end = vstd::math::min(sample_count, tag.1 * hop);
            lemma_append_piece(before, false, 0, from, middle);
            lemma_append_piece(before + piece(false, from, middle), true, 0, middle, end);
        }
    }
}

/// A slice put behind others keeps them side by side.
proof fn lemma_append_piece(slices: Seq<AudioSlice>, silent: bool, from: int, at: int, to: int)
    requires
        contiguous(slices, from, at),
        i32::MIN <= at <= to <= i32::MAX,
    ensures
        contiguous(slices + piece(silent, at, to), from, to),
{
    let all = slices + piece(silent, at, to);
    if at == to {
        assert(all =~= slices);
    } else {
        assert(all.last().end == to);
        assert forall|i: int, j: int| 0 <= i && j == i + 1 && j < all.len() implies (
        #[trigger] all[i]).end == (#[trigger] all[j]).start by {
            if j < slices.len() {
                assert(all[i] == slices[i]);
                assert(all[j] == slices[j]);
            } else {
                assert(all[i] == slices.last());
            }
        }
    }
}

/// Frames as a pair of integers.
spec fn frames_of(tags: Seq<(i32, i32)>) -> Seq<(int, int)> {
    tags.map_values(|tag: (i32, i32)| (tag.0 as int, tag.1 as int))
}

/// The rules for durations in milliseconds at a positive sample rate.
pub open spec fn rules(
    rate: nat,
    threshold: Single,
    minimum_length_ms: int,
    minimum_interval_ms: int,
    hop_size_ms: int,
    maximum_silence_kept_ms: int,
) -> Slicer {
    let hop = lengths::span_samples(rate, hop_size_ms);
    Slicer {
        threshold,
        hop_size: hop as i32,
        window_size: vstd::math::min(
            lengths::span_samples(rate, minimum_interval_ms),
            4 * hop,
        ) as i32,
        minimum_length: lengths::span_hops(rate, minimum_length_ms, hop) as i32,
        minimum_interval: lengths::span_hops(rate, minimum_interval_ms, hop) as i32,
        maximum_silence_kept: lengths::span_hops(rate, maximum_silence_kept_ms, hop) as i32,
    }
}

/// The rules that are used unless others are asked for.
pub open spec fn standard_rules(rate: nat, threshold: Single) -> Slicer {
    rules(rate, threshold, 5000, 300, 20, 5000)
}

/// Whether a waveform can be framed by some rules, where it is long enough to
/// be cut.
pub open spec fn sliceable(slicer: Slicer, sample_count: int) -> bool {
    sample_count > slicer.minimum_length ==> slicer.usable() && sample_count + slicer.window_size
        < i32::MAX
}

/// The standard rules can be applied to every waveform that has a length with
/// a window on top: at rates that are too low for a hop of a sample, they cut
/// nothing.
pub proof fn lemma_standard_usable(rate: nat, threshold: Single, sample_count: int)
    requires
        0 < rate <= i32::MAX,
        0 <= sample_count,
        sample_count + 0x1000_0000 < i32::MAX,
    ensures
        sliceable(standard_rules(rate, threshold), sample_count),
        0 <= lengths::span_samples(rate, 20) <= 0x400_0000,
{
    lengths::lemma_span_range(rate, 20);
    lengths::lemma_span_range(rate, 300);
}

/// Adds a slice, unless it is empty.
fn push_piece(slices: &mut Vec<AudioSlice>, silent: bool, start: i32, end: i32)
    ensures
        final(slices)@ == old(slices)@ + piece(silent, start as int, end as int),
{
    if start != end {
        slices.push(AudioSlice { silent, start, end });
    }
    assert(slices@ =~= old(slices)@ + piece(silent, start as int, end as int));
}

/// The end of the last silence that ends before a frame, or the start of the
/// recording.
pub open spec fn last_end(tags: Seq<(int, int)>, frame: int) -> int
    decreases tags.len(),
{
    if tags.len() == 0 {
        0
    } else if tags.last().1 < frame {
        tags.last().1
    } else {
        last_end(tags.drop_last(), frame)
    }
}

proof fn lemma_last_end(tags: Seq<(int, int)>, frame: int, count: int)
    requires
        0 <= count <= tags.len(),
        forall|t: int| 0 <= t < tags.len() ==> ((#[trigger] tags[t]).1 < frame <==> t < count),
    ensures
        last_end(tags, frame) == if count == 0 {
            0
        } else {
            tags[count - 1].1
        },
    decreases tags.len(),
{
    if tags.len() > count {
        let rest = tags.drop_last();
        assert(tags[tags.len() - 1] == tags.last());
        assert forall|t: int| 0 <= t < rest.len() implies ((#[trigger] rest[t]).1 < frame <==> t
            < count) by {
            assert(rest[t] == tags[t]);
        }
        lemma_last_end(rest, frame, count);
    } else if count > 0 {
        assert(tags[count - 1] == tags.last());
    }
}

/// The rules keep the durations that they are made of, to the nearest sample or
/// hop: frames are `hop_size_ms` apart and four times as long, or as long as the
/// shortest silence that counts if that is less.
pub proof fn lemma_rules(
    rate: nat,
    threshold: Single,
    minimum_length_ms: nat,
    minimum_interval_ms: nat,
    hop_size_ms: nat,
    maximum_silence_kept_ms: nat,
)
    requires
        0 < rate <= i32::MAX,
        0 < hop_size_ms <= minimum_interval_ms <= minimum_length_ms <= 0x10_0000,
        hop_size_ms <= maximum_silence_kept_ms <= 0x10_0000,
        rate * minimum_length_ms <= 0x7fff_0000,
        rate * maximum_silence_kept_ms <= 0x7fff_0000,
        501 < rate * hop_size_ms <= 60_000_000,
    ensures
        ({
            let slicer = rules(
                rate,
                threshold,
                minimum_length_ms as int,
                minimum_interval_ms as int,
                hop_size_ms as int,
                maximum_silence_kept_ms as int,
            );
            let hop = slicer.hop_size as int;
            &&& slicer.threshold == threshold
            &&& hop > 0
            &&& nearly(hop, 1000, rate * hop_size_ms)
            &&& slicer.window_size <= 4 * hop
            &&& 1000 * slicer.window_size <= rate * minimum_interval_ms + 501
            &&& slicer.window_size == 4 * hop || nearly(
                slicer.window_size as int,
                1000,
                rate * minimum_interval_ms,
            )
            &&& nearly(slicer.minimum_length as int, 1000 * hop, rate * minimum_length_ms)
            &&& nearly(slicer.minimum_interval as int, 1000 * hop, rate * minimum_interval_ms)
            &&& nearly(
                slicer.maximum_silence_kept as int,
                1000 * hop,
                rate * maximum_silence_kept_ms,
            )
        }),
{
    assert(rate * minimum_interval_ms <= rate * minimum_length_ms) by (nonlinear_arith)
        requires
            minimum_interval_ms <= minimum_length_ms,
    ;
    assert(rate * minimum_interval_ms > 0) by (nonlinear_arith)
        requires
            rate > 0,
            minimum_interval_ms > 0,
    ;
    lengths::lemma_span_nearest(rate, hop_size_ms, 1);
    lengths::lemma_span_nearest(rate, minimum_interval_ms, 1);
    let hop = lengths::span_samples(rate, hop_size_ms as int);
    assert(0 < hop <= 0x1_0000);
    lengths::lemma_span_nearest(rate, minimum_length_ms, hop as nat);
    lengths::lemma_span_nearest(rate, minimum_interval_ms, hop as nat);
    lengths::lemma_span_nearest(rate, maximum_silence_kept_ms, hop as nat);
}

/// The standard rules: frames are 20 milliseconds apart and 80 long, a silence
/// counts from 300 milliseconds on, a slice lasts at least 5 seconds, and so much
/// of a silence is kept at most.
pub proof fn lemma_standard_rules(rate: nat, threshold: Single)
    requires
        26 <= rate <= 429_000,
    ensures
        ({
            let slicer = standard_rules(rate, threshold);
            let hop = slicer.hop_size as int;
            &&& slicer.threshold == threshold
            &&& hop > 0
            &&& nearly(hop, 1000, rate * 20)
            &&& slicer.window_size <= 4 * hop
            &&& 1000 * slicer.window_size <= rate * 300 + 501
            &&& slicer.window_size == 4 * hop || nearly(
                slicer.window_size as int,
                1000,
                rate * 300,
            )
            &&& nearly(slicer.minimum_length as int, 1000 * hop, rate * 5000)
            &&& nearly(slicer.minimum_interval as int, 1000 * hop, rate * 300)
            &&& nearly(slicer.maximum_silence_kept as int, 1000 * hop, rate * 5000)
        }),
{
    lemma_rules(rate, threshold, 5000, 300, 20, 5000);
}

/// Whether `count * size` differs from `total` by half of `size` at most, but
/// for the rounding on the way.
pub open spec fn nearly(count: int, size: int, total: nat) -> bool {
    -size - 2 <= 2 * (count * size - total) <= size + 2
}

/// The smaller of a sample count and a frame's first sample.
fn sample_at(frame: i32, hop: i32, sample_count: i32) -> (result: i32)
    requires
        0 <= frame,
        0 < hop,
        0 <= sample_count,
    ensures
        result == vstd::math::min(sample_count as int, frame * hop),
{
    assert(0 <= frame * hop <= 0x7fff_ffff * 0x7fff_ffff) by (nonlinear_arith)
        requires
            0 <= frame <= 0x7fff_ffff,
            0 <= hop <= 0x7fff_ffff,
    ;
    let position: i64 = frame as i64 * hop as i64;
    if position < sample_count as i64 {
        position as i32
    } else {
        sample_count
    }
}

impl Slicer {
    /// Turns durations in milliseconds into rules, with `threshold` the level
    /// below which a frame is silent.
    pub fn new(
        sample_rate: i32,
        threshold: Single,
        minimum_length_ms: i32,
        minimum_interval_ms: i32,
        hop_size_ms: i32,
        maximum_silence_kept_ms: i32,
    ) -> (result: Result<Slicer, SlicerError>)
        requires
            sample_rate > 0 ==> i32::MIN <= 4 * lengths::span_samples(
                sample_rate as nat,
                hop_size_ms as int,
            ) <= i32::MAX,
        ensures
            result == if !(minimum_length_ms >= minimum_interval_ms >= hop_size_ms) {
                Err::<Slicer, SlicerError>(SlicerError::LengthOrder)
            } else if maximum_silence_kept_ms < hop_size_ms {
                Err(SlicerError::SilenceKept)
            } else if sample_rate <= 0 {
                Err(SlicerError::SampleRate)
            } else {
                Ok(
                    rules(
                        sample_rate as nat,
                        threshold,
                        minimum_length_ms as int,
                        minimum_interval_ms as int,
                        hop_size_ms as int,
                        maximum_silence_kept_ms as int,
                    ),
                )
            },
    {
        if !(minimum_length_ms >= minimum_interval_ms && minimum_interval_ms >= hop_size_ms) {
            return Err(SlicerError::LengthOrder);
        }
        if maximum_silence_kept_ms < hop_size_ms {
            return Err(SlicerError::SilenceKept);
        }
        if sample_rate <= 0 {
            return Err(SlicerError::SampleRate);
        }
        let hop_size = lengths::samples_in(sample_rate, hop_size_ms);
        let interval = lengths::samples_in(sample_rate, minimum_interval_ms);
        let window_size: i32 = if interval < 4 * hop_size {
            interval
        } else {
            4 * hop_size
        };
        Ok(
            Slicer {
                threshold,
                hop_size,
                window_size,
                minimum_length: lengths::hops_in(sample_rate, minimum_length_ms, hop_size),
                minimum_interval: lengths::hops_in(sample_rate, minimum_interval_ms, hop_size),
                maximum_silence_kept: lengths::hops_in(
                    sample_rate,
                    maximum_silence_kept_ms,
                    hop_size,
                ),
            },
        )
    }

    /// The rules that are used unless others are asked for.
    pub fn standard(sample_rate: i32, threshold: Single) -> (result: Result<Slicer, SlicerError>)
        ensures
            result == if sample_rate <= 0 {
                Err::<Slicer, SlicerError>(SlicerError::SampleRate)
            } else {
                Ok(standard_rules(sample_rate as nat, threshold))
            },
    {
        proof {
            if sample_rate > 0 {
                lemma_standard_usable(sample_rate as nat, threshold, 0);
            }
        }
        Self::new(sample_rate, threshold, 5000, 300, 20, 5000)
    }

    /// Whether a waveform can be framed, see [`sliceable`].
    pub fn fits(&self, sample_count: i32) -> (result: bool)
        ensures
            result == sliceable(*self, sample_count as int),
    {
        sample_count <= self.minimum_length || (self.hop_size > 0 && self.window_size > 0
            && self.minimum_length >= 0 && self.maximum_silence_kept >= 0 && sample_count as i64
            + (self.window_size as i64) < i32::MAX as i64)
    }

    /// The first frame of lowest level from `start` up to `end`.
    pub fn minimum_position(levels: &Vec<Single>, start: usize, end: usize) -> (position: usize)
        requires
            start < end <= levels@.len(),
        ensures
            position == lowest(levels@, start as int, end as int),
            start <= position < end,
    {
        let mut position: usize = start;
        let mut index: usize = start + 1;
        while index < end
            invariant
                start < index <= end <= levels@.len(),
                start <= position < index,
                position == lowest(levels@, start as int, index as int),
            decreases end - index,
        {
            if levels[index].less_than(levels[position]) {
                position = index;
            }
            index = index + 1;
        }
        position
    }

    /// The frames of a waveform whose levels [`Slicer::slice`] needs, or none
    /// where the waveform is too short to be cut.
    pub fn frames(&self, shape: &[i32]) -> (result: Result<Option<FrameLayout>, SlicerError>)
        requires
            shapes::is_single_row(shape@) ==> sliceable(*self, shape@[1] as int),
        ensures
            result == if !shapes::is_single_row(shape@) {
                Err::<Option<FrameLayout>, SlicerError>(SlicerError::Shape)
            } else if shape@[1] <= self.minimum_length {
                Ok(None)
            } else {
                Ok(
                    Some(
                        shapes::centered(
                            shape@[1] as int,
                            self.window_size as int,
                            self.hop_size as int,
                        ),
                    ),
                )
            },
            result matches Ok(Some(layout)) ==> layout.inside() && layout.frame_count
                == self.frame_count(shape@[1] as int),
    {
        if !shapes::single_row(shape) {
            return Err(SlicerError::Shape);
        }
        if shape[1] <= self.minimum_length {
            return Ok(None);
        }
        Ok(Some(shapes::centered_frames(shape[1], self.window_size, self.hop_size)))
    }

    /// The frames that a silence between two sounds takes up.
    fn find_tag(&self, levels: &Vec<Single>, start: i32, index: i32) -> (tag: (i32, i32))
        requires
            self.usable(),
            0 <= start < index < levels@.len(),
        ensures
            (tag.0 as int, tag.1 as int) == self.tag(levels@, start as int, index as int),
            start <= tag.0 <= tag.1 <= index,
    {
        proof {
            self.lemma_tag_range(levels@, start as int, index as int);
        }
        let kept: i32 = self.maximum_silence_kept;
        if index - start <= kept {
            let position = Self::minimum_position(levels, start as usize, index as usize + 1) as i32;
            if start == 0 {
                return (0, position);
            }
            return (position, position);
        }
        let left = Self::minimum_position(levels, start as usize, (start + kept) as usize + 1)
            as i32;
        let right = Self::minimum_position(levels, (index - kept) as usize, index as usize + 1)
            as i32;
        if start == 0 {
            return (0, right);
        }
        if (index - start) as i64 <= kept as i64 * 2 {
            let position = Self::minimum_position(
                levels,
                (index - kept) as usize,
                (start + kept) as usize + 1,
            ) as i32;
            let first: i32 = if left < position {
                left
            } else {
                position
            };
            let last: i32 = if right > position {
                right
            } else {
                position
            };
            (first, last)
        } else {
            (left, right)
        }
    }

    /// The silences of a waveform.
    fn find_silences(&self, levels: &Vec<Single>) -> (tags: Vec<(i32, i32)>)
        requires
            self.usable(),
            levels@.len() < i32::MAX,
        ensures
            frames_of(tags@) == self.silences(levels@),
    {
        let count: i32 = levels.len() as i32;
        let mut tags: Vec<(i32, i32)> = Vec::new();
        let mut silence_start: Option<i32> = None;
        let mut clip_start: i32 = 0;
        let mut index: i32 = 0;
        assert(frames_of(tags@) =~= seq![]);
        while index < count
            invariant
                self.usable(),
                count == levels@.len() < i32::MAX,
                0 <= index <= count,
                frames_of(tags@) == self.scan(levels@, index as nat).tags,
                clip_start == self.scan(levels@, index as nat).clip,
                self.scan(levels@, index as nat).silence == match silence_start {
                    Some(start) => Some(start as int),
                    None => None::<int>,
                },
            decreases count - index,
        {
            proof {
                self.lemma_scan_ordered(levels@, index as nat);
            }
            if levels[index as usize].less_than(self.threshold) {
                if silence_start.is_none() {
                    silence_start = Some(index);
                }
            } else if let Some(start) = silence_start {
                let leading = start == 0 && index > self.maximum_silence_kept;
                let middle = index - start >= self.minimum_interval && index - clip_start
                    >= self.minimum_length;
                if leading || middle {
                    let tag = self.find_tag(levels, start, index);
                    let ghost before = tags@;
                    tags.push(tag);
                    assert(frames_of(tags@) =~= frames_of(before).push(
                        (tag.0 as int, tag.1 as int),
                    ));
                    clip_start = tag.1;
                }
                silence_start = None;
            }
            index = index + 1;
        }
        proof {
            self.lemma_scan_ordered(levels@, count as nat);
        }
        if let Some(start) = silence_start {
            if count - start >= self.minimum_interval {
                let reach: i64 = start as i64 + self.maximum_silence_kept as i64 + 1;
                let end: usize = if reach < count as i64 {
                    reach as usize
                } else {
                    count as usize
                };
                let position = Self::minimum_position(levels, start as usize, end) as i32;
                let ghost before = tags@;
                tags.push((position, count + 1));
                assert(frames_of(tags@) =~= frames_of(before).push(
                    (position as int, count as int + 1),
                ));
            }
        }
        tags
    }

    /// Cuts a waveform of `sample_count` samples, given the level of each of
    /// its frames. The slices are those of [`Slicer::slices`]; they follow one
    /// another without gaps and none is empty.
    pub fn slice(&self, sample_count: i32, levels: &Vec<Single>) -> (slices: Vec<AudioSlice>)
        requires
            0 <= sample_count,
            sliceable(*self, sample_count as int),
            sample_count > self.minimum_length ==> levels@.len() == self.frame_count(
                sample_count as int,
            ),
        ensures
            slices@ == self.slices(sample_count as int, levels@),
            sample_count > 0 ==> contiguous(slices@, 0, sample_count as int),
    {
        if sample_count <= self.minimum_length {
            let mut slices: Vec<AudioSlice> = Vec::new();
            slices.push(AudioSlice { silent: false, start: 0, end: sample_count });
            assert(slices@ =~= self.slices(sample_count as int, levels@));
            return slices;
        }
        proof {
            self.lemma_slices_contiguous(sample_count as int, levels@);
            shapes::lemma_frames_fit(
                sample_count + 2 * (self.window_size as int / 2),
                self.window_size as int,
                self.hop_size as int,
            );
        }
        let tags = self.find_silences(levels);
        let ghost frames = frames_of(tags@);
        proof {
            self.lemma_silences_ordered(levels@);
            self.lemma_silences_in_waveform(sample_count as int, levels@);
        }
        let mut slices: Vec<AudioSlice> = Vec::new();
        if tags.len() == 0 {
            slices.push(AudioSlice { silent: false, start: 0, end: sample_count });
            assert(slices@ =~= self.slices(sample_count as int, levels@));
            return slices;
        }
        let mut index: usize = 0;
        let mut from: i32 = 0;
        while index < tags.len()
            invariant
                self.usable(),
                0 <= sample_count,
                index <= tags@.len(),
                frames == frames_of(tags@),
                ordered(frames, frames.last().1),
                forall|i: int|
                    0 <= i < frames.len() ==> 0 <= (#[trigger] frames[i]).0 * self.hop_size
                        <= sample_count,
                forall|i: int|
                    0 <= i < frames.len() - 1 ==> 0 <= (#[trigger] frames[i]).1 * self.hop_size
                        <= sample_count,
                slices@ == self.cut(frames, index as nat, sample_count as int),
                from == if index == 0 {
                    0
                } else {
                    vstd::math::min(sample_count as int, frames[index - 1].1 * self.hop_size)
                },
            decreases tags@.len() - index,
        {
            assert(frames[index as int] == (tags@[index as int].0 as int, tags@[index as int].1 as int));
            let start = sample_at(tags[index].0, self.hop_size, sample_count);
            let end = sample_at(tags[index].1, self.hop_size, sample_count);
            push_piece(&mut slices, false, from, start);
            push_piece(&mut slices, true, start, end);
            from = end;
            index = index + 1;
        }
        push_piece(&mut slices, false, from, sample_count);
        assert(slices@ =~= self.slices(sample_count as int, levels@));
        slices
    }

    /// The sample at which a frame begins lies in the waveform.
    proof fn lemma_frame_in_waveform(self, sample_count: int, frame: int)
        requires
            self.usable(),
            sample_count > 0,
            0 <= frame < self.frame_count(sample_count),
        ensures
            0 <= frame * self.hop_size <= sample_count,
    {
        let hop = self.hop_size as int;
        let window = self.window_size as int;
        shapes::lemma_frames_fit(sample_count + 2 * (window / 2), window, hop);
        let count = self.frame_count(sample_count);
        assert(frame * hop <= (count - 1) * hop) by (nonlinear_arith)
            requires
                frame <= count - 1,
                hop > 0,
        ;
        assert(0 <= frame * hop) by (nonlinear_arith)
            requires
                0 <= frame,
                hop > 0,
        ;
    }

    /// All silences begin in the waveform, and all but the last one end there.
    proof fn lemma_silences_in_waveform(self, sample_count: int, levels: Seq<Single>)
        requires
            self.usable(),
            sample_count > 0,
            levels.len() == self.frame_count(sample_count),
        ensures
            forall|i: int|
                0 <= i < self.silences(levels).len() ==> 0 <= (#[trigger] self.silences(
                    levels,
                )[i]).0 * self.hop_size <= sample_count,
            forall|i: int|
                0 <= i < self.silences(levels).len() - 1 ==> 0 <= (#[trigger] self.silences(
                    levels,
                )[i]).1 * self.hop_size <= sample_count,
    {
        let tags = self.silences(levels);
        let hop = self.hop_size as int;
        self.lemma_silences_ordered(levels);
        assert forall|i: int| 0 <= i < tags.len() implies 0 <= (#[trigger] tags[i]).0 * hop
            <= sample_count by {
            self.lemma_frame_in_waveform(sample_count, tags[i].0);
        }
        assert forall|i: int| 0 <= i < tags.len() - 1 implies 0 <= (#[trigger] tags[i]).1 * hop
            <= sample_count by {
            self.lemma_frame_in_waveform(sample_count, tags[i].1);
        }
    }

    /// The slices of a waveform lie side by side and make it up, and none is
    /// empty.
    pub proof fn lemma_slices_contiguous(self, sample_count: int, levels: Seq<Single>)
        requires
            0 < sample_count <= i32::MAX,
            sample_count > self.minimum_length ==> self.usable() && levels.len()
                == self.frame_count(sample_count),
        ensures
            contiguous(self.slices(sample_count, levels), 0, sample_count),
    {
        let tags = self.silences(levels);
        if sample_count > self.minimum_length && tags.len() > 0 {
            let hop = self.hop_size as int;
            let window = self.window_size as int;
            self.lemma_silences_ordered(levels);
            shapes::lemma_frames_fit(sample_count + 2 * (window / 2), window, hop);
            self.lemma_silences_in_waveform(sample_count, levels);
            self.lemma_cut_contiguous(tags, tags.len(), sample_count);
            let last = tags.last().1;
            let cut = self.cut(tags, tags.len(), sample_count);
            if last * hop < sample_count {
                lemma_append_piece(cut, false, 0, last * hop, sample_count);
            } else {
                assert(cut + Seq::<AudioSlice>::empty() =~= cut);
            }
        }
    }

    /// Whether all frames of a range are below the threshold.
    pub open spec fn quiet(self, levels: Seq<Single>, from: int, to: int) -> bool {
        forall|frame: int|
            from <= frame < to && 0 <= frame < levels.len() ==> (#[trigger] levels[frame]).less(
                self.threshold,
            )
    }

    /// The silences found so far, and the current one, are quiet.
    proof fn lemma_scan_quiet(self, levels: Seq<Single>, count: nat)
        requires
            self.usable(),
            count <= levels.len(),
        ensures
            forall|t: int|
                0 <= t < self.scan(levels, count).tags.len() ==> self.quiet(
                    levels,
                    (#[trigger] self.scan(levels, count).tags[t]).0,
                    self.scan(levels, count).tags[t].1,
                ),
            self.scan(levels, count).silence matches Some(start) ==> self.quiet(
                levels,
                start,
                count as int,
            ),
        decreases count,
    {
        if count > 0 {
            let index = count - 1;
            self.lemma_scan_quiet(levels, index as nat);
            self.lemma_scan_ordered(levels, index as nat);
            let before = self.scan(levels, index as nat);
            if let Some(start) = before.silence {
                self.lemma_tag_range(levels, start, index);
            }
            let after = self.scan(levels, count);
            assert forall|t: int| 0 <= t < after.tags.len() implies self.quiet(
                levels,
                (#[trigger] after.tags[t]).0,
                after.tags[t].1,
            ) by {
                if t < before.tags.len() {
                    assert(after.tags[t] == before.tags[t]);
                }
            }
        }
    }

    /// All silences are quiet.
    proof fn lemma_silences_quiet(self, levels: Seq<Single>)
        requires
            self.usable(),
        ensures
            forall|t: int|
                0 <= t < self.silences(levels).len() ==> self.quiet(
                    levels,
                    (#[trigger] self.silences(levels)[t]).0,
                    self.silences(levels)[t].1,
                ),
    {
        let count = levels.len() as int;
        self.lemma_scan_quiet(levels, levels.len());
        self.lemma_scan_ordered(levels, levels.len());
        let scan = self.scan(levels, levels.len());
        let tags = self.silences(levels);
        if let Some(start) = scan.silence {
            let end = vstd::math::min(count, start + self.maximum_silence_kept);
            lemma_lowest_range(levels, start, vstd::math::min(end + 1, count));
        }
        assert forall|t: int| 0 <= t < tags.len() implies self.quiet(
            levels,
            (#[trigger] tags[t]).0,
            tags[t].1,
        ) by {
            if t < scan.tags.len() {
                assert(tags[t] == scan.tags[t]);
            }
        }
    }

    /// Whether a slice is what a silence takes up of a waveform.
    pub open spec fn takes_up(
        self,
        tag: (int, int),
        sample_count: int,
        slice: AudioSlice,
    ) -> bool {
        &&& slice.start == tag.0 * self.hop_size
        &&& slice.end == vstd::math::min(sample_count, tag.1 * self.hop_size)
    }

    /// Whether a slice is what one of the first silences takes up.
    pub open spec fn among(
        self,
        tags: Seq<(int, int)>,
        count: nat,
        sample_count: int,
        slice: AudioSlice,
    ) -> bool {
        exists|t: int|
            0 <= t < count && self.takes_up(#[trigger] tags[t], sample_count, slice)
    }

    /// A silent slice is one of the silences, and no two follow one another.
    proof fn lemma_cut_silent(self, tags: Seq<(int, int)>, count: nat, sample_count: int)
        requires
            self.usable(),
            count <= tags.len(),
            0 <= sample_count <= i32::MAX,
            ordered(tags, tags.last().1),
            forall|i: int|
                0 <= i < tags.len() ==> 0 <= (#[trigger] tags[i]).0 * self.hop_size <= sample_count,
        ensures
            forall|i: int|
                0 <= i < self.cut(tags, count, sample_count).len() && (#[trigger] self.cut(
                    tags,
                    count,
                    sample_count,
                )[i]).silent ==> self.among(
                    tags,
                    count,
                    sample_count,
                    self.cut(tags, count, sample_count)[i],
                ),
            alternating(self.cut(tags, count, sample_count)),
        decreases count,
    {
        if count > 0 {
            let hop = self.hop_size as int;
            self.lemma_cut_silent(tags, (count - 1) as nat, sample_count);
            let tag = tags[count - 1];
            let before = self.cut(tags, (count - 1) as nat, sample_count);
            let all = self.cut(tags, count, sample_count);
            assert(0 <= tag.0 * hop <= tag.1 * hop) by (nonlinear_arith)
                requires
                    0 <= tag.0 <= tag.1,
                    hop > 0,
            ;
            let from = if count == 1 {
                0
            } else {
                tags[count - 2].1 * hop
            };
            if count > 1 {
                let previous = tags[count - 2];
                assert(previous.1 * hop < tag.0 * hop) by (nonlinear_arith)
                    requires
                        previous.1 < tag.0,
                        hop > 0,
                ;
            }
            let end = vstd::math::min(sample_count, tag.1 * hop);
            let sound = piece(false, from, vstd::math::min(sample_count, tag.0 * hop));
            let silence = piece(true, tag.0 * hop, end);
            assert(all == before + sound + silence);
            assert forall|i: int| 0 <= i < all.len() && (#[trigger] all[i]).silent implies self.among(
                tags,
                count,
                sample_count,
                all[i],
            ) by {
                if i < before.len() {
                    assert(all[i] == before[i]);
                    let t = choose|t: int|
                        0 <= t < count - 1 && self.takes_up(
                            #[trigger] tags[t],
                            sample_count,
                            before[i],
                        );
                    assert(self.takes_up(tags[t], sample_count, all[i]));
                } else {
                    assert(self.takes_up(tags[count - 1], sample_count, all[i]));
                }
            }
            assert forall|i: int, j: int| 0 <= i && j == i + 1 && j < all.len() implies !((
            #[trigger] all[i]).silent && (#[trigger] all[j]).silent) by {
                if j < before.len() {
                    assert(all[i] == before[i] && all[j] == before[j]);
                } else if i >= before.len() {
                    assert(!all[i].silent);
                } else {
                    assert(count > 1);
                    assert(all[j] == sound[0]);
                }
            }
        }
    }

    /// Every frame that starts inside a silent slice is below the threshold.
    pub proof fn lemma_silence_is_quiet(
        self,
        sample_count: int,
        levels: Seq<Single>,
        index: int,
        frame: int,
    )
        requires
            0 < sample_count <= i32::MAX,
            sample_count > self.minimum_length ==> self.usable() && levels.len()
                == self.frame_count(sample_count),
            0 <= index < self.slices(sample_count, levels).len(),
            self.slices(sample_count, levels)[index].silent,
            0 <= frame < levels.len(),
            self.slices(sample_count, levels)[index].start <= frame * self.hop_size,
            frame * self.hop_size < self.slices(sample_count, levels)[index].end,
        ensures
            levels[frame].less(self.threshold),
    {
        let tags = self.silences(levels);
        let hop = self.hop_size as int;
        let slice = self.slices(sample_count, levels)[index];
        self.lemma_silences_ordered(levels);
        self.lemma_silences_in_waveform(sample_count, levels);
        self.lemma_silences_quiet(levels);
        self.lemma_cut_silent(tags, tags.len(), sample_count);
        let cut = self.cut(tags, tags.len(), sample_count);
        assert(slice == cut[index]);
        let t = choose|t: int|
            0 <= t < tags.len() && self.takes_up(#[trigger] tags[t], sample_count, slice);
        let tag = tags[t];
        assert(tag.0 <= frame < tag.1) by (nonlinear_arith)
            requires
                tag.0 * hop <= frame * hop,
                frame * hop < tag.1 * hop,
                hop > 0,
        ;
        assert(self.quiet(levels, tags[t].0, tags[t].1));
    }

    /// Between two silent slices there is sound.
    pub proof fn lemma_silences_apart(
        self,
        sample_count: int,
        levels: Seq<Single>,
        earlier: int,
        later: int,
    )
        requires
            0 < sample_count <= i32::MAX,
            sample_count > self.minimum_length ==> self.usable() && levels.len()
                == self.frame_count(sample_count),
            0 <= earlier < later < self.slices(sample_count, levels).len(),
            self.slices(sample_count, levels)[earlier].silent,
            self.slices(sample_count, levels)[later].silent,
        ensures
            self.slices(sample_count, levels)[earlier].end < self.slices(
                sample_count,
                levels,
            )[later].start,
    {
        let tags = self.silences(levels);
        let slices = self.slices(sample_count, levels);
        self.lemma_silences_ordered(levels);
        self.lemma_silences_in_waveform(sample_count, levels);
        self.lemma_cut_silent(tags, tags.len(), sample_count);
        let cut = self.cut(tags, tags.len(), sample_count);
        self.lemma_slices_contiguous(sample_count, levels);
        lemma_contiguous_order(slices, 0, sample_count, earlier, later);
        assert(slices[later] == cut[later] && slices[earlier] == cut[earlier]);
        if later == earlier + 1 {
            assert(!(cut[earlier].silent && cut[later].silent));
        }
    }

    /// Whether the frames from `start` to `index` are a silence between sounds:
    /// they are below the threshold, the frame at `index` is not, and neither is
    /// the one before, if there is one.
    pub open spec fn is_pause(self, levels: Seq<Single>, start: int, index: int) -> bool {
        &&& 0 <= start < index < levels.len()
        &&& self.quiet(levels, start, index)
        &&& !levels[index].less(self.threshold)
        &&& start == 0 || !levels[start - 1].less(self.threshold)
    }

    /// What the scan knows at a frame: the silence that goes on there begins
    /// where the sound before it ends, and the current slice begins where the
    /// last silence ends.
    proof fn lemma_scan_state(self, levels: Seq<Single>, count: nat)
        requires
            self.usable(),
            count <= levels.len(),
        ensures
            ({
                let scan = self.scan(levels, count);
                &&& scan.clip == if scan.tags.len() == 0 {
                    0
                } else {
                    scan.tags.last().1
                }
                &&& match scan.silence {
                    Some(start) => {
                        &&& 0 <= start < count
                        &&& self.quiet(levels, start, count as int)
                        &&& start == 0 || !levels[start - 1].less(self.threshold)
                    },
                    None => count == 0 || !levels[count - 1].less(self.threshold),
                }
            }),
        decreases count,
    {
        if count > 0 {
            self.lemma_scan_state(levels, (count - 1) as nat);
            self.lemma_scan_quiet(levels, count);
            self.lemma_scan_ordered(levels, count);
        }
    }

    /// The scan keeps what it found, and what it finds later lies later.
    proof fn lemma_scan_grows(self, levels: Seq<Single>, first: nat, count: nat)
        requires
            self.usable(),
            first <= count <= levels.len(),
        ensures
            ({
                let before = self.scan(levels, first);
                let after = self.scan(levels, count);
                &&& before.tags.len() <= after.tags.len()
                &&& forall|t: int|
                    0 <= t < before.tags.len() ==> #[trigger] after.tags[t] == before.tags[t]
                &&& before.silence is None ==> {
                    &&& after.silence matches Some(start) ==> start >= first
                    &&& forall|t: int|
                        before.tags.len() <= t < after.tags.len() ==> (
                        #[trigger] after.tags[t]).0 >= first
                }
            }),
        decreases count - first,
    {
        if first < count {
            let index = count - 1;
            self.lemma_scan_grows(levels, first, index as nat);
            self.lemma_scan_ordered(levels, index as nat);
            let middle = self.scan(levels, index as nat);
            if let Some(start) = middle.silence {
                self.lemma_tag_range(levels, start, index);
            }
        }
    }

    /// In a pause the scan knows where it began.
    proof fn lemma_pause_known(self, levels: Seq<Single>, start: int, index: int)
        requires
            self.usable(),
            self.is_pause(levels, start, index),
        ensures
            self.scan(levels, index as nat).silence == Some(start),
    {
        self.lemma_scan_state(levels, index as nat);
        assert(levels[index - 1].less(self.threshold));
        let found = self.scan(levels, index as nat).silence;
        if let Some(other) = found {
            if other < start {
                assert(levels[start - 1].less(self.threshold));
            } else if start < other {
                assert(levels[other - 1].less(self.threshold));
            }
        }
    }

    /// A pause is cut exactly where it opens the recording and is longer than
    /// the silence that is kept, or where it is long enough to count and the
    /// sound after it comes at least the minimum length after the end of the
    /// silence before it.
    pub proof fn lemma_pause_cut(self, levels: Seq<Single>, start: int, index: int)
        requires
            self.usable(),
            self.is_pause(levels, start, index),
        ensures
            ({
                let tags = self.silences(levels);
                (exists|t: int|
                    0 <= t < tags.len() && start <= (#[trigger] tags[t]).0 && tags[t].1 <= index)
                    <==> (start == 0 && index > self.maximum_silence_kept) || (index - start
                    >= self.minimum_interval && index - last_end(tags, start)
                    >= self.minimum_length)
            }),
            forall|t: int|
                0 <= t < self.silences(levels).len() && start <= (#[trigger] self.silences(
                    levels,
                )[t]).0 && self.silences(levels)[t].1 <= index ==> self.silences(levels)[t]
                    == self.tag(levels, start, index),
    {
        let tags = self.silences(levels);
        let found = self.scan(levels, levels.len()).tags;
        let before = self.scan(levels, index as nat);
        let after = self.scan(levels, (index + 1) as nat);
        self.lemma_pause_known(levels, start, index);
        self.lemma_scan_state(levels, index as nat);
        self.lemma_scan_ordered(levels, index as nat);
        self.lemma_scan_ordered(levels, levels.len());
        self.lemma_silences_ordered(levels);
        self.lemma_tag_range(levels, start, index);
        self.lemma_scan_grows(levels, index as nat, levels.len());
        self.lemma_scan_grows(levels, (index + 1) as nat, levels.len());
        assert(after.silence is None);
        assert forall|t: int| 0 <= t < tags.len() implies if t < before.tags.len() {
            (#[trigger] tags[t]) == before.tags[t] && tags[t].1 < start
        } else if t < after.tags.len() {
            tags[t] == self.tag(levels, start, index)
        } else {
            tags[t].0 > index
        } by {
            if t < found.len() {
                assert(tags[t] == found[t]);
                if t < before.tags.len() {
                    let last = before.tags.len() - 1;
                    if t < last {
                        assert(before.tags[t].1 < before.tags[last].0);
                    }
                    assert(before.tags[last] == before.tags.last());
                } else if t < after.tags.len() {
                    assert(after.tags[t] == self.tag(levels, start, index));
                    assert(found[t] == after.tags[t]);
                }
            } else {
                let last = self.scan(levels, levels.len()).silence->0;
                let count = levels.len() as int;
                let end = vstd::math::min(count, last + self.maximum_silence_kept);
                lemma_lowest_range(levels, last, vstd::math::min(end + 1, count));
                assert(last >= index + 1);
            }
        }
        assert forall|t: int| 0 <= t < tags.len() implies ((#[trigger] tags[t]).1 < start <==> t
            < before.tags.len()) by {
            if t >= before.tags.len() {
                assert(tags[t].0 <= tags[t].1);
            }
        }
        lemma_last_end(tags, start, before.tags.len() as int);
        assert(last_end(tags, start) == before.clip);
        if self.counts(start, index, before.clip) {
            let t = before.tags.len() as int;
            assert(after.tags[t] == self.tag(levels, start, index));
            assert(tags[t] == after.tags[t]);
            assert(start <= tags[t].0 && tags[t].1 <= index);
        } else {
            assert forall|t: int| 0 <= t < tags.len() implies !(start <= (#[trigger] tags[t]).0
                && tags[t].1 <= index) by {
            }
        }
    }

    /// Every silence that is found before the end is made of a pause that has to
    /// be cut.
    pub proof fn lemma_found_in_pause(self, levels: Seq<Single>, count: nat, t: int)
        requires
            self.usable(),
            count <= levels.len(),
            0 <= t < self.scan(levels, count).tags.len(),
        ensures
            exists|start: int, index: int| #[trigger]
                self.is_pause(levels, start, index) && index < count && self.scan(
                    levels,
                    count,
                ).tags[t] == self.tag(levels, start, index),
        decreases count,
    {
        let index = count - 1;
        let before = self.scan(levels, index as nat);
        self.lemma_scan_state(levels, index as nat);
        if t < before.tags.len() {
            self.lemma_found_in_pause(levels, index as nat, t);
            let (start, place) = choose|start: int, place: int| #[trigger]
                self.is_pause(levels, start, place) && place < index && before.tags[t] == self.tag(
                    levels,
                    start,
                    place,
                );
            assert(self.is_pause(levels, start, place));
        } else {
            let start = before.silence->0;
            assert(self.is_pause(levels, start, index));
        }
    }

    /// Of two silences in a row that are found before the end of the recording, the
    /// sound that closes the later one comes at least the minimum length after the
    /// end of the earlier one, and after a pause that is long enough to count.
    pub proof fn lemma_silences_spaced(self, levels: Seq<Single>, t: int)
        requires
            self.usable(),
            0 <= t,
            t + 1 < self.silences(levels).len(),
            self.silences(levels)[t + 1].1 < levels.len(),
        ensures
            exists|start: int, index: int| #[trigger]
                self.is_pause(levels, start, index) && start <= self.silences(levels)[t + 1].0
                    && self.silences(levels)[t + 1].1 <= index && index >= self.silences(
                    levels,
                )[t].1 + self.minimum_length && index - start >= self.minimum_interval,
    {
        let tags = self.silences(levels);
        let found = self.scan(levels, levels.len()).tags;
        assert(t + 1 < found.len());
        assert(tags[t + 1] == found[t + 1] && tags[t] == found[t]);
        self.lemma_found_spaced(levels, levels.len(), t);
        let (start, index) = choose|start: int, index: int| #[trigger]
            self.is_pause(levels, start, index) && found[t + 1] == self.tag(levels, start, index)
                && index - found[t].1 >= self.minimum_length && index - start
                >= self.minimum_interval;
        self.lemma_tag_range(levels, start, index);
        assert(self.is_pause(levels, start, index));
    }

    proof fn lemma_found_spaced(self, levels: Seq<Single>, count: nat, t: int)
        requires
            self.usable(),
            count <= levels.len(),
            0 <= t,
            t + 1 < self.scan(levels, count).tags.len(),
        ensures
            ({
                let tags = self.scan(levels, count).tags;
                exists|start: int, index: int| #[trigger]
                    self.is_pause(levels, start, index) && tags[t + 1] == self.tag(
                        levels,
                        start,
                        index,
                    ) && index - tags[t].1 >= self.minimum_length && index - start
                        >= self.minimum_interval
            }),
        decreases count,
    {
        let index = count - 1;
        let tags = self.scan(levels, count).tags;
        let before = self.scan(levels, index as nat);
        self.lemma_scan_state(levels, index as nat);
        if t + 1 < before.tags.len() {
            self.lemma_found_spaced(levels, index as nat, t);
            let (start, place) = choose|start: int, place: int| #[trigger]
                self.is_pause(levels, start, place) && before.tags[t + 1] == self.tag(
                    levels,
                    start,
                    place,
                ) && place - before.tags[t].1 >= self.minimum_length && place - start
                    >= self.minimum_interval;
            assert(tags[t + 1] == before.tags[t + 1] && tags[t] == before.tags[t]);
            assert(self.is_pause(levels, start, place));
        } else {
            let start = before.silence->0;
            assert(tags[t + 1] == self.tag(levels, start, index));
            assert(tags[t] == before.tags[t]);
            self.lemma_found_in_pause(levels, index as nat, t);
            let (first, place) = choose|first: int, place: int| #[trigger]
                self.is_pause(levels, first, place) && place < index && before.tags[t] == self.tag(
                    levels,
                    first,
                    place,
                );
            // The sound after the earlier silence.
            assert(!levels[place].less(self.threshold));
            assert(start > 0);
            assert(self.is_pause(levels, start, index));
        }
    }

    /// Where a pause is cut: no more than the silence that is kept stays on
    /// either side. A short pause is cut at its lowest frame, and a long one from
    /// the lowest frame after the sound before to the lowest one before the sound
    /// after. A pause that opens the recording is cut from its start.
    pub proof fn lemma_cut_place(self, levels: Seq<Single>, start: int, index: int)
        requires
            self.usable(),
            0 <= start < index < levels.len(),
            forall|i: int| start <= i <= index ==> !(#[trigger] levels[i]).is_nan(),
        ensures
            ({
                let (from, to) = self.tag(levels, start, index);
                let kept = self.maximum_silence_kept as int;
                &&& start <= from <= to <= index
                &&& index - to <= kept
                &&& start == 0 ==> from == 0
                &&& start > 0 ==> from - start <= kept
                &&& index - start <= kept ==> {
                    &&& start > 0 ==> from == to
                    &&& forall|i: int|
                        start <= i <= index ==> (#[trigger] levels[i]).at_least(levels[to])
                    &&& forall|i: int| start <= i < to ==> levels[to].less(#[trigger] levels[i])
                }
                &&& index - start > kept ==> {
                    &&& start > 0 ==> forall|i: int|
                        start <= i <= start + kept ==> (#[trigger] levels[i]).at_least(levels[from])
                    &&& start > 0 ==> forall|i: int|
                        start <= i < from ==> levels[from].less(#[trigger] levels[i])
                    &&& forall|i: int|
                        index - kept <= i <= index ==> (#[trigger] levels[i]).at_least(levels[to])
                    &&& forall|i: int|
                        index - kept <= i < to ==> levels[to].less(#[trigger] levels[i])
                }
            }),
    {
        let kept = self.maximum_silence_kept as int;
        self.lemma_tag_range(levels, start, index);
        if index - start <= kept {
            lemma_lowest_range(levels, start, index + 1);
            lemma_lowest_is_least(levels, start, index + 1);
        } else {
            if index - start <= kept * 2 {
                lemma_lowest_range(levels, index - kept, start + kept + 1);
                lemma_lowest_is_least(levels, index - kept, start + kept + 1);
            }
            lemma_lowest_range(levels, start, start + kept + 1);
            lemma_lowest_range(levels, index - kept, index + 1);
            lemma_lowest_is_least(levels, start, start + kept + 1);
            lemma_lowest_is_least(levels, index - kept, index + 1);
            let left = lowest(levels, start, start + kept + 1);
            let right = lowest(levels, index - kept, index + 1);
            if index - start <= kept * 2 {
                let position = lowest(levels, index - kept, start + kept + 1);
                if position < left {
                    assert(levels[left].less(levels[position]));
                    assert(levels[left].at_least(levels[position]));
                }
                if right < position {
                    assert(levels[position].less(levels[right]));
                    assert(levels[position].at_least(levels[right]));
                }
            }
        }
    }

    /// A silence that goes on to the end is cut exactly where it is long enough
    /// to count, from the lowest of its first frames to the end.
    pub proof fn lemma_end_cut(self, levels: Seq<Single>, start: int)
        requires
            self.usable(),
            0 <= start < levels.len(),
            self.quiet(levels, start, levels.len() as int),
            start == 0 || !levels[start - 1].less(self.threshold),
        ensures
            ({
                let tags = self.silences(levels);
                let count = levels.len() as int;
                let found = tags.len() > 0 && tags.last().1 > count;
                &&& found <==> count - start >= self.minimum_interval
                &&& found ==> {
                    let from = tags.last().0;
                    &&& tags.last().1 == count + 1
                    &&& start <= from < count
                    &&& from - start <= self.maximum_silence_kept
                    &&& forall|i: int|
                        start <= i < count && i - start <= self.maximum_silence_kept ==> (
                        #[trigger] levels[i]).at_least(levels[from])
                    &&& forall|i: int| start <= i < from ==> levels[from].less(#[trigger] levels[i])
                }
            }),
    {
        let count = levels.len() as int;
        let scan = self.scan(levels, levels.len());
        self.lemma_scan_state(levels, levels.len());
        self.lemma_scan_ordered(levels, levels.len());
        assert(levels[count - 1].less(self.threshold));
        let found = scan.silence->0;
        if found < start {
            assert(levels[start - 1].less(self.threshold));
        } else if start < found {
            assert(levels[found - 1].less(self.threshold));
        }
        let end = vstd::math::min(count, start + self.maximum_silence_kept);
        let limit = vstd::math::min(end + 1, count);
        lemma_lowest_range(levels, start, limit);
        assert forall|i: int| start <= i < limit implies !(#[trigger] levels[i]).is_nan() by {
            assert(levels[i].less(self.threshold));
        }
        lemma_lowest_is_least(levels, start, limit);
        if scan.tags.len() > 0 {
            assert(scan.tags.last().1 <= count - 1);
        }
    }

    /// After a sound at the end of the recording nothing is cut off.
    pub proof fn lemma_sound_at_end(self, levels: Seq<Single>)
        requires
            self.usable(),
            levels.len() > 0,
            !levels.last().less(self.threshold),
        ensures
            self.silences(levels).len() > 0 ==> self.silences(levels).last().1 < levels.len(),
    {
        self.lemma_scan_state(levels, levels.len());
        self.lemma_scan_ordered(levels, levels.len());
    }

    /// Every silence that takes up samples is a silent slice, and a recording
    /// without any silence, or one that is too short to be cut, is a single
    /// sounding slice.
    pub proof fn lemma_silences_sliced(self, sample_count: int, levels: Seq<Single>, t: int)
        requires
            0 < sample_count <= i32::MAX,
            sample_count > self.minimum_length ==> self.usable() && levels.len()
                == self.frame_count(sample_count),
        ensures
            ({
                let tags = self.silences(levels);
                let slices = self.slices(sample_count, levels);
                &&& sample_count <= self.minimum_length || tags.len() == 0 ==> slices == seq![
                    AudioSlice { silent: false, start: 0, end: sample_count as i32 },
                ]
                &&& sample_count > self.minimum_length && 0 <= t < tags.len() && tags[t].0
                    * self.hop_size < vstd::math::min(sample_count, tags[t].1 * self.hop_size)
                    ==> exists|i: int|
                    0 <= i < slices.len() && (#[trigger] slices[i]).silent && self.takes_up(
                        tags[t],
                        sample_count,
                        slices[i],
                    )
            }),
    {
        let tags = self.silences(levels);
        let slices = self.slices(sample_count, levels);
        if sample_count > self.minimum_length && 0 <= t < tags.len() && tags[t].0 * self.hop_size
            < vstd::math::min(sample_count, tags[t].1 * self.hop_size) {
            self.lemma_silences_ordered(levels);
            self.lemma_silences_in_waveform(sample_count, levels);
            self.lemma_cut_has(tags, tags.len(), sample_count, t);
            let cut = self.cut(tags, tags.len(), sample_count);
            let i = choose|i: int|
                0 <= i < cut.len() && (#[trigger] cut[i]).silent && self.takes_up(
                    tags[t],
                    sample_count,
                    cut[i],
                );
            assert(slices[i] == cut[i]);
        }
    }

    proof fn lemma_cut_has(
        self,
        tags: Seq<(int, int)>,
        count: nat,
        sample_count: int,
        t: int,
    )
        requires
            self.usable(),
            0 <= t < count <= tags.len(),
            0 <= sample_count <= i32::MAX,
            0 <= tags[t].0 * self.hop_size < vstd::math::min(
                sample_count,
                tags[t].1 * self.hop_size,
            ),
        ensures
            exists|i: int|
                0 <= i < self.cut(tags, count, sample_count).len() && (#[trigger] self.cut(
                    tags,
                    count,
                    sample_count,
                )[i]).silent && self.takes_up(
                    tags[t],
                    sample_count,
                    self.cut(tags, count, sample_count)[i],
                ),
        decreases count,
    {
        let all = self.cut(tags, count, sample_count);
        let before = self.cut(tags, (count - 1) as nat, sample_count);
        if t < count - 1 {
            self.lemma_cut_has(tags, (count - 1) as nat, sample_count, t);
            let i = choose|i: int|
                0 <= i < before.len() && (#[trigger] before[i]).silent && self.takes_up(
                    tags[t],
                    sample_count,
                    before[i],
                );
            assert(all[i] == before[i]);
        } else {
            let last = all.len() - 1;
            assert(all[last].silent && self.takes_up(tags[t], sample_count, all[last]));
        }
    }

    /// The slices of a waveform are ranges of samples.
    pub proof fn lemma_slices_valid(self, sample_count: int, levels: Seq<Single>)
        requires
            0 <= sample_count <= i32::MAX,
            sample_count > self.minimum_length ==> self.usable() && levels.len()
                == self.frame_count(sample_count),
        ensures
            forall|i: int|
                0 <= i < self.slices(sample_count, levels).len() ==> 0 <= (
                #[trigger] self.slices(sample_count, levels)[i]).start <= self.slices(
                    sample_count,
                    levels,
                )[i].end <= sample_count,
    {
        let slices = self.slices(sample_count, levels);
        if sample_count > 0 {
            self.lemma_slices_contiguous(sample_count, levels);
            assert forall|i: int| 0 <= i < slices.len() implies 0 <= (#[trigger] slices[i]).start
                <= slices[i].end <= sample_count by {
                lemma_contiguous_start(slices, 0, sample_count, i);
                lemma_contiguous_end(slices, 0, sample_count, i);
            }
        }
    }
}

} // verus!
