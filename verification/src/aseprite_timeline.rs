//! The playback order of an Aseprite file's frames: the file's tags expanded one after
//! another, each by its loop direction, or every frame in order without tags.
use vstd::prelude::*;

use crate::aseprite_export::{loss_count, record_loss};
use crate::aseprite_file::{ase_frames, ase_tags, file_tags, frame_count};
use aseprite::AsepriteFile;
use crate::error::ExportError;
use crate::information_loss::{InformationLocation, InformationLossCode, InformationLossReport, LossDisposition};
use crate::logical_layers::diagnostics::{debug_string, debug_text};
use crate::model::NormalizedLoopMode;
use vstd::string::StringExecFns;

verus! {

/// The loop direction of an Aseprite tag.
#[derive(Debug, Clone, Copy, PartialEq, Eq, Structural)]
pub enum TagDirection {
    /// First to last frame.
    Forward,
    /// Last to first frame.
    Reverse,
    /// First to last, then back without repeating the ends.
    PingPong,
    /// Last to first, then back without repeating the ends.
    PingPongReverse,
    /// A direction this reader does not play.
    Other,
}

/// An Aseprite tag: its name, frame range, loop direction and repeat count.
#[derive(Debug)]
pub struct TagRange {
    /// Tag name.
    pub name: String,
    /// First frame.
    pub from_frame: usize,
    /// Last frame, inclusive.
    pub to_frame: usize,
    /// Loop direction.
    pub direction: TagDirection,
    /// Repeat count, zero for endless.
    pub repeat: u16,
}

/// Frames `from` to `to` in increasing order.
pub open spec fn ascending(from: int, to: int) -> Seq<usize> {
    if from > to { Seq::empty() } else { Seq::new((to - from + 1) as nat, |i: int| (from + i) as usize) }
}

/// Frames `to` down to `from`.
pub open spec fn descending(from: int, to: int) -> Seq<usize> {
    if from > to { Seq::empty() } else { Seq::new((to - from + 1) as nat, |i: int| (to - i) as usize) }
}

/// The frames a tag plays, in order.
pub open spec fn tag_frames(tag: TagRange) -> Seq<usize> {
    let from = tag.from_frame as int;
    let to = tag.to_frame as int;
    match tag.direction {
        TagDirection::Forward => ascending(from, to),
        TagDirection::Reverse => descending(from, to),
        TagDirection::PingPong => ascending(from, to) + descending(from + 1, to - 1),
        TagDirection::PingPongReverse => descending(from, to) + ascending(from + 1, to - 1),
        TagDirection::Other => Seq::empty(),
    }
}

/// The frames a list of tags plays, one tag after another.
pub open spec fn tags_frames(tags: Seq<TagRange>) -> Seq<usize>
    decreases tags.len(),
{
    if tags.len() == 0 {
        Seq::empty()
    } else {
        tags_frames(tags.drop_last()) + tag_frames(tags.last())
    }
}

/// Whether a tag's range lies in a file of `frame_count` frames.
pub open spec fn range_valid(tag: TagRange, frame_count: int) -> bool {
    tag.from_frame <= tag.to_frame && tag.to_frame < frame_count
}

/// Whether a tag can be played.
pub open spec fn tag_playable(tag: TagRange, frame_count: int) -> bool {
    range_valid(tag, frame_count) && tag.direction != TagDirection::Other
}

/// The error for tag `i`, the first that cannot be played.
pub open spec fn tag_error(tags: Seq<TagRange>, frame_count: int, i: int, e: ExportError) -> bool {
    &&& 0 <= i < tags.len()
    &&& forall|j: int| 0 <= j < i ==> tag_playable(#[trigger] tags[j], frame_count)
    &&& !tag_playable(tags[i], frame_count)
    &&& e matches ExportError::AsepriteRead(message) && message@ == "tag "@ + debug_text(tags[i].name@) + if !range_valid(tags[i], frame_count) {
        " has an invalid frame range"@
    } else {
        " uses an unsupported loop direction"@
    }
}

/// The loop mode of a file's tags: a single tag's repeat count when it has one, else endless.
pub open spec fn tags_loop(tags: Seq<TagRange>) -> NormalizedLoopMode {
    if tags.len() == 1 && tags[0].repeat != 0 {
        NormalizedLoopMode::Finite(tags[0].repeat as u32)
    } else {
        NormalizedLoopMode::Infinite
    }
}

fn push_ascending(sequence: &mut Vec<usize>, from: usize, to: usize)
    requires
        from <= to + 1,
        to < usize::MAX,
    ensures
        final(sequence)@ == old(sequence)@ + ascending(from as int, to as int),
{
    let ghost start = sequence@;
    let mut frame = from;
    assert(start + ascending(from as int, from as int - 1) =~= start);
    while frame <= to
        invariant
            from <= frame <= to + 1,
            to < usize::MAX,
            sequence@ == start + ascending(from as int, frame as int - 1),
        decreases to + 1 - frame,
    {
        sequence.push(frame);
        proof {
            assert(sequence@ =~= start + ascending(from as int, frame as int));
        }
        frame = frame + 1;
    }
}

fn push_descending(sequence: &mut Vec<usize>, from: usize, to: usize)
    requires
        from <= to + 1,
        to < usize::MAX,
    ensures
        final(sequence)@ == old(sequence)@ + descending(from as int, to as int),
{
    let ghost start = sequence@;
    let mut next = to + 1;
    assert(start + descending(to as int + 1, to as int) =~= start);
    while next > from
        invariant
            from <= next <= to + 1,
            sequence@ == start + descending(next as int, to as int),
        decreases next - from,
    {
        next = next - 1;
        sequence.push(next);
        proof {
            assert(sequence@ =~= start + descending(next as int, to as int));
        }
    }
}

/// The playback order of a file of `frame_count` frames and its tags, with the loop mode.
/// Without tags every frame plays once in order, endlessly. Otherwise the tags play one
/// after another by their directions, a tag-name loss is recorded, and the loop mode is the
/// single tag's repeat count. The first tag with a range outside the file or an unplayable
/// direction is reported.
pub fn playback_sequence(frame_count: usize, tags: &Vec<TagRange>, report: &mut InformationLossReport)
    -> (played: Result<(Vec<usize>, NormalizedLoopMode), ExportError>)
    requires
        loss_count(old(report).entries@, InformationLossCode::AnimationTagName, LossDisposition::Degraded) < usize::MAX,
    ensures
        tags@.len() == 0 ==> (played matches Ok((sequence, mode)) && sequence@ == Seq::new(frame_count as nat, |i: int| i as usize)
            && mode == NormalizedLoopMode::Infinite && final(report).entries@ == old(report).entries@),
        tags@.len() > 0 ==> match played {
            Ok((sequence, mode)) => {
                &&& forall|j: int| 0 <= j < tags@.len() ==> tag_playable(#[trigger] tags@[j], frame_count as int)
                &&& sequence@ == tags_frames(tags@)
                &&& mode == tags_loop(tags@)
                &&& loss_count(final(report).entries@, InformationLossCode::AnimationTagName, LossDisposition::Degraded)
                    == loss_count(old(report).entries@, InformationLossCode::AnimationTagName, LossDisposition::Degraded) + 1
                &&& forall|c: InformationLossCode, d: LossDisposition| !(c == InformationLossCode::AnimationTagName && d == LossDisposition::Degraded)
                    ==> #[trigger] loss_count(final(report).entries@, c, d) == loss_count(old(report).entries@, c, d)
            },
            Err(e) => (exists|i: int| #[trigger] tag_error(tags@, frame_count as int, i, e)) && final(report).entries@ == old(report).entries@,
        },
{
    if tags.len() == 0 {
        let mut sequence: Vec<usize> = Vec::new();
        let mut frame: usize = 0;
        while frame < frame_count
            invariant
                frame <= frame_count,
                sequence@ == Seq::new(frame as nat, |i: int| i as usize),
            decreases frame_count - frame,
        {
            sequence.push(frame);
            proof {
                assert(sequence@ =~= Seq::new(frame as nat + 1, |i: int| i as usize));
            }
            frame = frame + 1;
        }
        return Ok((sequence, NormalizedLoopMode::Infinite));
    }
    let mut sequence: Vec<usize> = Vec::new();
    let mut t: usize = 0;
    assert(tags@.take(0) =~= Seq::<TagRange>::empty());
    while t < tags.len()
        invariant
            t <= tags@.len(),
            sequence@ == tags_frames(tags@.take(t as int)),
            forall|j: int| 0 <= j < t ==> tag_playable(#[trigger] tags@[j], frame_count as int),
            report.entries@ == old(report).entries@,
        decreases tags@.len() - t,
    {
        let tag = &tags[t];
        if tag.from_frame > tag.to_frame || tag.to_frame >= frame_count {
            let mut message = String::new();
            message.append("tag ");
            let quoted = debug_string(&tag.name);
            message.append(quoted.as_str());
            message.append(" has an invalid frame range");
            let e = ExportError::AsepriteRead(message);
            assert(tag_error(tags@, frame_count as int, t as int, e));
            return Err(e);
        }
        let from = tag.from_frame;
        let to = tag.to_frame;
        let ghost before = sequence@;
        match tag.direction {
            TagDirection::Forward => push_ascending(&mut sequence, from, to),
            TagDirection::Reverse => push_descending(&mut sequence, from, to),
            TagDirection::PingPong => {
                push_ascending(&mut sequence, from, to);
                if from + 1 <= to {
                    push_descending(&mut sequence, from + 1, to - 1);
                } else {
                    assert(descending(from as int + 1, to as int - 1) =~= Seq::<usize>::empty());
                    assert(sequence@ =~= sequence@ + descending(from as int + 1, to as int - 1));
                }
            },
            TagDirection::PingPongReverse => {
                push_descending(&mut sequence, from, to);
                if from + 1 <= to {
                    push_ascending(&mut sequence, from + 1, to - 1);
                } else {
                    assert(ascending(from as int + 1, to as int - 1) =~= Seq::<usize>::empty());
                    assert(sequence@ =~= sequence@ + ascending(from as int + 1, to as int - 1));
                }
            },
            TagDirection::Other => {
                let mut message = String::new();
                message.append("tag ");
                let quoted = debug_string(&tag.name);
                message.append(quoted.as_str());
                message.append(" uses an unsupported loop direction");
                let e = ExportError::AsepriteRead(message);
                assert(tag_error(tags@, frame_count as int, t as int, e));
                return Err(e);
            },
        }
        proof {
            assert(tags@.take(t as int + 1).drop_last() =~= tags@.take(t as int));
            assert(tags@.take(t as int + 1).last() == tags@[t as int]);
            assert(sequence@ =~= before + tag_frames(tags@[t as int]));
        }
        t = t + 1;
    }
    proof {
        assert(tags@.take(tags@.len() as int) =~= tags@);
    }
    record_loss(
        report,
        InformationLossCode::AnimationTagName,
        LossDisposition::Degraded,
        InformationLocation { layer_id: None, path: "document/tags".to_owned() },
        "Aseprite tag ranges are expanded into one deterministic Photoshop frame sequence; tag names and boundaries are not editable",
        false,
        true,
    );
    let mode = if tags.len() == 1 && tags[0].repeat != 0 {
        NormalizedLoopMode::Finite(tags[0].repeat as u32)
    } else {
        NormalizedLoopMode::Infinite
    };
    Ok((sequence, mode))
}


/// Whether tags read from a file are the file's tags: same number, and each with the tag's
/// name, range and repeat count.
pub open spec fn tags_read(read: Seq<TagRange>, file: AsepriteFile) -> bool {
    &&& read.len() == ase_tags(file).len()
    &&& forall|i: int| 0 <= i < read.len() ==> ((#[trigger] read[i]).name@, read[i].from_frame, read[i].to_frame, read[i].repeat)
        == ase_tags(file)[i]
}

/// The playback order and loop mode of an Aseprite file, from its frames and tags: every
/// frame in order without tags; else refused unless every tag's range lies in the file, and
/// looping by the single tag's repeat count.
pub fn file_playback(file: &AsepriteFile, report: &mut InformationLossReport)
    -> (played: Result<(Vec<usize>, NormalizedLoopMode), ExportError>)
    requires
        loss_count(old(report).entries@, InformationLossCode::AnimationTagName, LossDisposition::Degraded) < usize::MAX,
    ensures
        ({
            let tags = ase_tags(*file);
            let frames = ase_frames(*file).len();
            &&& tags.len() == 0 ==> (played matches Ok((sequence, mode)) && sequence@ == Seq::new(frames, |i: int| i as usize)
                && mode == NormalizedLoopMode::Infinite)
            &&& (exists|i: int| 0 <= i < tags.len() && !(#[trigger] tags[i].1 <= tags[i].2 && tags[i].2 < frames)) ==> played is Err
            &&& tags.len() > 0 ==> (played matches Ok((sequence, mode)) ==> exists|read: Seq<TagRange>| #[trigger] tags_read(read, *file)
                && sequence@ == tags_frames(read) && forall|j: int| 0 <= j < read.len() ==> tag_playable(#[trigger] read[j], frames as int))
            &&& tags.len() > 0 ==> (played matches Ok((sequence, mode)) ==> mode == if tags.len() == 1 && tags[0].3 != 0 {
                NormalizedLoopMode::Finite(tags[0].3 as u32)
            } else {
                NormalizedLoopMode::Infinite
            })
        }),
{
    let count = frame_count(file);
    let tags = file_tags(file);
    let played = playback_sequence(count, &tags, report);
    proof {
        if exists|i: int| 0 <= i < ase_tags(*file).len() && !(#[trigger] ase_tags(*file)[i].1 <= ase_tags(*file)[i].2
            && ase_tags(*file)[i].2 < count) {
            let i = choose|i: int| 0 <= i < ase_tags(*file).len() && !(#[trigger] ase_tags(*file)[i].1 <= ase_tags(*file)[i].2
                && ase_tags(*file)[i].2 < count);
            assert(tags@[i].from_frame == ase_tags(*file)[i].1);
            assert(!range_valid(tags@[i], count as int));
        }
        if tags@.len() == 1 {
            assert(tags@[0].repeat == ase_tags(*file)[0].3);
        }
        assert(tags_read(tags@, *file));
    }
    played
}


/// The number of frames a tag plays: its range once when played in one direction; a
/// ping-pong plays its two end frames once and every inner frame twice.
pub open spec fn tag_span(tag: TagRange) -> int {
    let width = tag.to_frame - tag.from_frame + 1;
    match tag.direction {
        TagDirection::Forward | TagDirection::Reverse => width,
        TagDirection::PingPong | TagDirection::PingPongReverse => if width >= 2 { 2 * width - 2 } else { width },
        TagDirection::Other => 0,
    }
}

/// The summed spans of a list of tags.
pub open spec fn total_span(tags: Seq<TagRange>) -> int
    decreases tags.len(),
{
    if tags.len() == 0 { 0 } else { total_span(tags.drop_last()) + tag_span(tags.last()) }
}

/// Playing two lists of tags one after the other plays the first list's frames, then the
/// second's: no tag is dropped or reordered.
pub proof fn lemma_playback_concatenates(a: Seq<TagRange>, b: Seq<TagRange>)
    ensures
        tags_frames(a + b) == tags_frames(a) + tags_frames(b),
    decreases b.len(),
{
    if b.len() == 0 {
        assert(a + b =~= a);
        assert(tags_frames(a) + tags_frames(b) =~= tags_frames(a));
    } else {
        lemma_playback_concatenates(a, b.drop_last());
        assert((a + b).drop_last() =~= a + b.drop_last());
        assert((a + b).last() == b.last());
        assert(tags_frames(a) + tags_frames(b) =~= tags_frames(a) + tags_frames(b.drop_last()) + tag_frames(b.last()));
    }
}

/// A playable tag plays its range: first to last, last to first, or there and back
/// without repeating the ends.
pub proof fn lemma_tag_plays_its_range(tag: TagRange, j: int)
    requires
        tag.from_frame <= tag.to_frame,
        0 <= j < tag_span(tag),
    ensures
        tag_frames(tag).len() == tag_span(tag),
        ({
            let from = tag.from_frame as int;
            let to = tag.to_frame as int;
            let width = to - from + 1;
            let frame = tag_frames(tag)[j] as int;
            match tag.direction {
                TagDirection::Forward => frame == from + j,
                TagDirection::Reverse => frame == to - j,
                TagDirection::PingPong => frame == if j < width { from + j } else { to - (j - width + 1) },
                TagDirection::PingPongReverse => frame == if j < width { to - j } else { from + (j - width + 1) },
                TagDirection::Other => false,
            }
        }),
{
}

/// The length of the playback order is the summed spans of the tags.
pub proof fn lemma_playback_length(tags: Seq<TagRange>, frame_count: int)
    requires
        forall|j: int| 0 <= j < tags.len() ==> tag_playable(#[trigger] tags[j], frame_count),
    ensures
        tags_frames(tags).len() == total_span(tags),
    decreases tags.len(),
{
    if tags.len() > 0 {
        let t = tags.last();
        assert(tag_playable(tags[tags.len() - 1], frame_count));
        assert forall|j: int| 0 <= j < tags.drop_last().len() implies tag_playable(#[trigger] tags.drop_last()[j], frame_count) by {
            assert(tags.drop_last()[j] == tags[j]);
        }
        lemma_playback_length(tags.drop_last(), frame_count);
    }
}

/// Every frame the playback order plays is a frame of the file.
pub proof fn lemma_playback_in_file(tags: Seq<TagRange>, frame_count: int, i: int)
    requires
        forall|j: int| 0 <= j < tags.len() ==> tag_playable(#[trigger] tags[j], frame_count),
        0 <= i < tags_frames(tags).len(),
    ensures
        tags_frames(tags)[i] < frame_count,
    decreases tags.len(),
{
    if tags.len() > 0 {
        let t = tags.last();
        assert(tag_playable(tags[tags.len() - 1], frame_count));
        assert forall|j: int| 0 <= j < tags.drop_last().len() implies tag_playable(#[trigger] tags.drop_last()[j], frame_count) by {
            assert(tags.drop_last()[j] == tags[j]);
        }
        let head = tags_frames(tags.drop_last());
        if i < head.len() {
            lemma_playback_in_file(tags.drop_last(), frame_count, i);
        } else {
            lemma_tag_plays_its_range(t, i - head.len());
        }
    }
}


/// Playback depends on the tags' ranges and directions alone: two lists that agree on them
/// tag for tag play the same frames.
pub proof fn lemma_same_ranges_same_playback(a: Seq<TagRange>, b: Seq<TagRange>)
    requires
        a.len() == b.len(),
        forall|i: int| 0 <= i < a.len() ==> (#[trigger] a[i]).from_frame == b[i].from_frame && a[i].to_frame == b[i].to_frame
            && a[i].direction == b[i].direction,
    ensures
        tags_frames(a) == tags_frames(b),
    decreases a.len(),
{
    if a.len() > 0 {
        assert forall|i: int| 0 <= i < a.drop_last().len() implies (#[trigger] a.drop_last()[i]).from_frame == b.drop_last()[i].from_frame
            && a.drop_last()[i].to_frame == b.drop_last()[i].to_frame && a.drop_last()[i].direction == b.drop_last()[i].direction by {
            assert(a.drop_last()[i] == a[i]);
            assert(b.drop_last()[i] == b[i]);
        }
        lemma_same_ranges_same_playback(a.drop_last(), b.drop_last());
        assert(a.last() == a[a.len() - 1]);
        assert(tag_frames(a.last()) == tag_frames(b.last()));
    }
}

} // verus!
