//! Cross-frame layer association records and the stable ordering of logical tracks.
use vstd::prelude::*;

pub mod association;
pub mod compact;
pub mod diagnostics;
pub mod families;
pub mod group_paths;
pub mod matching;
pub mod plan;
pub mod planner;
pub mod scoring;
pub mod selectors;
pub mod write_plan;
pub mod z_order;

pub use self::association::associate_frame;
pub use self::matching::{find_best_family_matching, find_unique_matchings};
pub use self::scoring::{
    candidate_names, candidate_score, evidence_for, holds_same_pixels, median_order,
    rejection_reasons,
};

verus! {

/// Selects whether the writer should preserve the PSD source tree or infer
/// long-lived logical layer tracks across animation frames.
#[derive(Debug, Clone, Copy, Default, PartialEq, Eq, Structural)]
pub enum LayerAssociationMode {
    /// Preserve every normalized source layer as its own Aseprite layer.
    #[default]
    Preserve,
    /// Infer logical tracks and remove frame-container groups.
    Auto,
}

/// Selects whether automatic association may reorder individual cels with
/// Aseprite's per-cel Z-Index field.
#[derive(Debug, Clone, Copy, Default, PartialEq, Eq, Structural)]
pub enum LayerZOrderMode {
    /// Use the stable order established by the association anchor frame.
    #[default]
    Stable,
    /// Allow experimental per-frame Z-Index adjustments.
    Auto,
}

/// Selects how Stable mode establishes the long-lived logical-track order.
#[derive(Debug, Clone, Copy, Default, PartialEq, Eq, Structural)]
pub enum StableOrderMode {
    /// Infer order from repeated source-order evidence on overlapping pixels.
    #[default]
    Consensus,
    /// Preserve the order from the association anchor frame.
    Anchor,
    /// Require every overlapping pair to have a reliable, acyclic consensus.
    Strict,
}

/// Describes the strongest exclusion relation observed for an association.
#[derive(Debug, Clone, Copy, Default, PartialEq, Eq, Structural)]
pub enum AssociationExclusionKind {
    /// No useful exclusion relation was found.
    #[default]
    NoRelation,
    /// The observations were not simultaneously visible in the sample.
    ObservedDisjoint,
    /// The observations belong to structurally disjoint frame containers.
    StructuralMutualExclusion,
    /// The candidate track already contains an observation from this frame.
    CoVisible,
}

/// Identifies the association pass that produced one decision.
#[derive(Debug, Clone, Copy, Default, PartialEq, Eq, Structural)]
pub enum AssociationPhase {
    /// The observation initialized a track from the anchor frame.
    Anchor,
    /// A family-level multi-track matcher associated the observation.
    Family,
    /// An exact RGBA match associated the observation.
    ExactPixels,
    /// The general residual matcher associated the observation.
    #[default]
    Residual,
    /// No existing track was safe, so a new track was created.
    NewTrack,
}

/// Classification of an automatic association decision.
#[derive(Debug, Clone, Copy, PartialEq, Eq, Structural)]
pub enum AssociationDecisionStatus {
    /// A unique strong name or exact-pixel anchor matched.
    Strong,
    /// A unique residual assignment or high-confidence score matched.
    Inferred,
    /// A new track was created because no safe match existed.
    NewTrack,
    /// The observation was intentionally kept separate because candidates tied.
    Ambiguous,
}

/// A cel reference in a logical track.
#[derive(Debug, Clone, Copy, PartialEq, Eq, Structural)]
pub struct PlannedCel {
    /// Source normalized pixel-layer ID.
    pub source_layer_id: u32,
    /// Source normalized frame index.
    pub source_frame_index: u32,
    /// Per-cel Aseprite Z-Index adjustment.
    pub z_index: i16,
}

/// One logical pixel layer spanning zero or more animation frames.
#[derive(Debug, Clone, PartialEq, Eq)]
pub struct LogicalLayerTrack {
    /// Stable index within the derived plan.
    pub id: usize,
    /// Representative output name.
    pub name: String,
    /// Source layer used for static attributes such as opacity and blend mode.
    pub representative_source_layer_id: u32,
    /// Persistent group path after frame-container groups are removed.
    pub group_path: Vec<String>,
    /// Source cel references, indexed by normalized frame index.
    pub cels: Vec<Option<PlannedCel>>,
}

/// One explainable observation-to-track decision.
#[derive(Debug, Clone, PartialEq, Eq)]
pub struct AssociationDecision {
    /// Normalized frame index.
    pub frame_index: u32,
    /// Source layer ID.
    pub source_layer_id: u32,
    /// Source tree path for diagnostics.
    pub source_path: String,
    /// Original source layer name.
    pub original_name: String,
    /// Whitespace- and case-normalized source name.
    pub normalized_name: String,
    /// Copy-stripped name family used for matching.
    pub normalized_base_name: String,
    /// Stable family key used by the multi-track matcher.
    pub family_key: String,
    /// Copy suffixes recognized at the end of the source name, as text.
    pub copy_suffixes: Vec<String>,
    /// Whether copy suffix parsing stopped at the safety limit.
    pub suffix_limit_reached: bool,
    /// Name evidence capacity used by the candidate scorer.
    pub name_evidence_weight: u16,
    /// Association pass that produced this decision.
    pub association_phase: AssociationPhase,
    /// Number of observations from the same name family in this frame.
    pub same_frame_instance_count: usize,
    /// Whether the family matcher found tied optimal assignments.
    pub matching_tie: bool,
    /// Reasons candidate tracks were rejected for this observation.
    pub rejection_reasons: Vec<String>,
    /// Exclusion relation between the selected observation and prior track data.
    pub exclusion_evidence: AssociationExclusionKind,
    /// Whether the selected track had a same-frame conflict.
    pub same_frame_conflict: bool,
    /// Whether source order was ignored because the containers are incomparable.
    pub order_evidence_ignored: bool,
    /// Output logical track ID.
    pub track_id: usize,
    /// Decision category.
    pub status: AssociationDecisionStatus,
    /// Score in hundredths of the normalized 0..=1 range.
    pub score: u16,
    /// Difference from the second-best candidate, in the same scale.
    pub margin: u16,
    /// Human-readable evidence labels.
    pub evidence: Vec<String>,
    /// Names of close alternatives that were not selected.
    pub alternatives: Vec<String>,
}

/// Structured diagnostics for automatic association.
#[derive(Debug, Clone, PartialEq, Eq)]
pub struct AssociationReport {
    /// Number of effective visible source observations considered.
    pub observation_count: usize,
    /// Number of logical tracks produced.
    pub track_count: usize,
    /// Source pixel layers that were never effectively visible in any frame.
    pub omitted_source_layer_ids: Vec<u32>,
    /// Z-order policy used to construct the plan.
    pub z_order_mode: LayerZOrderMode,
    /// Stable-order policy requested for the automatic plan.
    pub stable_order_mode: StableOrderMode,
    /// Version of the copy-suffix catalog used for name analysis.
    pub name_catalog_version: u16,
    /// Name parsing and unresolved-name diagnostics.
    pub name_diagnostics: Vec<String>,
    /// Per-family matching summaries and track-slot diagnostics.
    pub family_diagnostics: Vec<String>,
    /// Mutual-exclusion hints and order evidence that was intentionally ignored.
    pub exclusion_diagnostics: Vec<String>,
    /// Potential per-frame order changes detected by the planner.
    pub z_order_diagnostics: Vec<String>,
    /// Evidence and fallbacks used while establishing stable track order.
    pub stable_order_diagnostics: Vec<String>,
    /// Per-observation decisions in deterministic source/frame order.
    pub decisions: Vec<AssociationDecision>,
    /// Non-fatal limitations and conservative fallbacks.
    pub warnings: Vec<String>,
}

/// One persistent group on the path from the document root to an observation.
#[derive(Debug, Clone, PartialEq, Eq)]
pub struct GroupSegment {
    /// Source group ID.
    pub id: u32,
    /// Source group name.
    pub name: String,
    /// Copy-stripped name key.
    pub key: String,
}

/// One effectively visible pixel layer in one frame.
#[derive(Debug, Clone, PartialEq, Eq)]
pub struct Observation {
    /// Normalized frame index.
    pub frame_index: usize,
    /// Source layer ID.
    pub source_layer_id: u32,
    /// Source tree path for diagnostics.
    pub source_path: String,
    /// Original source layer name.
    pub name: String,
    /// Whitespace- and case-normalized source name.
    pub normalized_name: String,
    /// Copy-stripped name family.
    pub name_key: String,
    /// Whether the name is a generic default name.
    pub generic_name: bool,
    /// Copy suffixes recognized at the end of the name, as text.
    pub copy_suffixes: Vec<String>,
    /// Whether copy suffix parsing stopped at the safety limit.
    pub suffix_limit_reached: bool,
    /// Frame-selector groups that contain the layer.
    pub frame_container_ids: Vec<u32>,
    /// Persistent groups that contain the layer.
    pub group_path: Vec<GroupSegment>,
    /// Position among the frame's observations, bottom first.
    pub source_order: usize,
    /// Cel origin.
    pub x: i32,
    /// Cel origin.
    pub y: i32,
    /// Pixel width.
    pub width: u32,
    /// Pixel height.
    pub height: u32,
    /// RGBA8 pixels, row by row.
    pub pixels: Vec<u8>,
}

/// What a track keeps of one assigned observation.
#[derive(Debug, Clone, PartialEq, Eq)]
pub struct ObservationSummary {
    /// Normalized frame index.
    pub frame_index: usize,
    /// Position among the frame's observations.
    pub source_order: usize,
    /// Cel origin.
    pub x: i32,
    /// Cel origin.
    pub y: i32,
    /// Pixel width.
    pub width: u32,
    /// Pixel height.
    pub height: u32,
    /// RGBA8 pixels, row by row.
    pub pixels: Vec<u8>,
    /// Frame-selector groups that contained the layer.
    pub frame_container_ids: Vec<u32>,
}

/// A logical track under construction.
#[derive(Debug, Clone, PartialEq, Eq)]
pub struct TrackBuilder {
    /// Track index.
    pub id: usize,
    /// Name of the observation that opened the track.
    pub name: String,
    /// Normalized name of that observation.
    pub normalized_name: String,
    /// Name family of that observation.
    pub name_key: String,
    /// Whether that name is generic.
    pub generic_name: bool,
    /// Copy suffixes of that name, as text.
    pub copy_suffixes: Vec<String>,
    /// Source layer used for static attributes.
    pub representative_source_layer_id: u32,
    /// Assigned cels, indexed by frame.
    pub cels: Vec<Option<PlannedCel>>,
    /// Summaries of the assigned observations, in assignment order.
    pub observations: Vec<ObservationSummary>,
    /// Group paths of the assigned observations, in assignment order.
    pub group_paths: Vec<Vec<GroupSegment>>,
}

/// The name evidence an observation can contribute: none for a generic name, full for a
/// plain name, half for a name with copy suffixes.
pub open spec fn evidence_weight(generic_name: bool, suffix_count: nat) -> u16 {
    if generic_name {
        0
    } else if suffix_count == 0 {
        30
    } else {
        15
    }
}

/// The name evidence capacity of an observation.
pub fn name_evidence_weight(observation: &Observation) -> (weight: u16)
    ensures
        weight == evidence_weight(observation.generic_name, observation.copy_suffixes@.len()),
{
    if observation.generic_name {
        0
    } else if observation.copy_suffixes.len() == 0 {
        30
    } else {
        15
    }
}

/// The name score of an observation against a track: nothing unless both names are
/// specific and share a family, full for the same normalized name, half otherwise.
pub open spec fn name_score(observation: Observation, track: TrackBuilder) -> u16 {
    if observation.generic_name || track.generic_name || observation.name_key@ != track.name_key@ {
        0u16
    } else if observation.normalized_name@ == track.normalized_name@ {
        30u16
    } else {
        15u16
    }
}

/// Scores the name of an observation against a track.
pub fn name_match_score(observation: &Observation, track: &TrackBuilder) -> (score: u16)
    ensures
        score == name_score(*observation, *track),
{
    if observation.generic_name || track.generic_name || observation.name_key != track.name_key {
        return 0;
    }
    if observation.normalized_name == track.normalized_name {
        30
    } else {
        15
    }
}

/// Whether a copy-suffixed observation may join a track: only within its own name family,
/// unless either name is generic or the observation has no copy suffix.
pub fn copy_family_candidate_allowed(observation: &Observation, track: &TrackBuilder) -> (allowed: bool)
    ensures
        allowed == (observation.copy_suffixes@.len() == 0 || observation.generic_name || track.generic_name
            || observation.name_key@ == track.name_key@),
{
    if observation.copy_suffixes.len() == 0 || observation.generic_name || track.generic_name {
        return true;
    }
    observation.name_key == track.name_key
}

/// The ratio of the smaller to the larger of two sizes, in tenths, rounded to the
/// nearest tenth with halves rounded up; zero when either size is zero.
pub open spec fn size_ratio(left: int, right: int) -> int {
    if left == 0 || right == 0 {
        0
    } else {
        let (small, large) = if left <= right { (left, right) } else { (right, left) };
        (20 * small + large) / (2 * large)
    }
}

/// Scores how close two sizes are, from 0 to 10.
pub fn ratio_score(left: u32, right: u32) -> (score: u16)
    ensures
        score == size_ratio(left as int, right as int),
        score <= 10,
{
    if left == 0 || right == 0 {
        return 0;
    }
    let (small, large) = if left <= right { (left as u64, right as u64) } else { (right as u64, left as u64) };
    assert((20 * small + large) / (2 * large) <= 10) by (nonlinear_arith)
        requires
            small <= large,
            large > 0,
    ;
    ((20 * small + large) / (2 * large)) as u16
}

/// The absolute difference of two coordinates, capped at 32.
pub open spec fn capped_distance(a: int, b: int) -> int {
    let d = if a >= b { a - b } else { b - a };
    if d > 32 { 32 } else { d }
}

/// The geometry similarity of an observation to an earlier one: half the mean size score
/// plus half of what remains of 20 after the capped origin distance, at most 20.
pub open spec fn geometry_score(observation: Observation, previous: ObservationSummary) -> int {
    let width = size_ratio(observation.width as int, previous.width as int);
    let height = size_ratio(observation.height as int, previous.height as int);
    let moved = capped_distance(observation.x as int, previous.x as int) + capped_distance(observation.y as int, previous.y as int);
    let position = 20 - (if moved > 20 { 20 } else { moved });
    let total = (width + height) / 2 + position / 2;
    if total > 20 { 20 } else { total }
}

/// Scores the geometric similarity of an observation to an earlier one.
pub fn geometry_similarity(observation: &Observation, previous: &ObservationSummary) -> (score: u16)
    ensures
        score == geometry_score(*observation, *previous),
{
    let width = ratio_score(observation.width, previous.width);
    let height = ratio_score(observation.height, previous.height);
    let dx_full: i64 = if observation.x as i64 >= previous.x as i64 { observation.x as i64 - previous.x as i64 } else { previous.x as i64 - observation.x as i64 };
    let dy_full: i64 = if observation.y as i64 >= previous.y as i64 { observation.y as i64 - previous.y as i64 } else { previous.y as i64 - observation.y as i64 };
    let dx: u16 = if dx_full > 32 { 32 } else { dx_full as u16 };
    let dy: u16 = if dy_full > 32 { 32 } else { dy_full as u16 };
    let moved = dx + dy;
    let position: u16 = 20 - (if moved > 20 { 20 } else { moved });
    let total = (width + height) / 2 + position / 2;
    if total > 20 { 20 } else { total }
}

/// The number of leading segments on which two group paths agree by key.
pub open spec fn common_prefix(left: Seq<GroupSegment>, right: Seq<GroupSegment>, n: int) -> int
    decreases left.len() - n,
{
    if n < 0 || n >= left.len() || n >= right.len() || left[n].key@ != right[n].key@ {
        if n < 0 { 0 } else { n }
    } else {
        common_prefix(left, right, n + 1)
    }
}

/// How much two group paths share: 20 for the same path, 12 for a shared prefix, 0 for
/// none.
pub open spec fn group_score(left: Seq<GroupSegment>, right: Seq<GroupSegment>) -> u16 {
    if left.len() == 0 && right.len() == 0 {
        20u16
    } else if common_prefix(left, right, 0) == left.len() && common_prefix(left, right, 0) == right.len() {
        20u16
    } else if common_prefix(left, right, 0) > 0 {
        12u16
    } else {
        0u16
    }
}

/// Scores how much two group paths share.
pub fn group_similarity(left: &Vec<GroupSegment>, right: &Vec<GroupSegment>) -> (score: u16)
    ensures
        score == group_score(left@, right@),
{
    let mut common: usize = 0;
    while common < left.len() && common < right.len() && left[common].key == right[common].key
        invariant
            common <= left@.len(),
            common <= right@.len(),
            common_prefix(left@, right@, 0) == common_prefix(left@, right@, common as int),
        decreases left@.len() - common,
    {
        common = common + 1;
    }
    if left.len() == 0 && right.len() == 0 {
        20
    } else if common == left.len() && common == right.len() {
        20
    } else if common > 0 {
        12
    } else {
        0
    }
}

fn copy_bytes(source: &Vec<u8>) -> (copy: Vec<u8>)
    ensures
        copy@ == source@,
{
    let mut copy: Vec<u8> = Vec::new();
    let mut i: usize = 0;
    while i < source.len()
        invariant
            i <= source@.len(),
            copy@ == source@.take(i as int),
        decreases source@.len() - i,
    {
        copy.push(source[i]);
        assert(source@.take(i as int + 1) == source@.take(i as int).push(source@[i as int]));
        i = i + 1;
    }
    assert(source@.take(source@.len() as int) == source@);
    copy
}

fn copy_ids(source: &Vec<u32>) -> (copy: Vec<u32>)
    ensures
        copy@ == source@,
{
    let mut copy: Vec<u32> = Vec::new();
    let mut i: usize = 0;
    while i < source.len()
        invariant
            i <= source@.len(),
            copy@ == source@.take(i as int),
        decreases source@.len() - i,
    {
        copy.push(source[i]);
        assert(source@.take(i as int + 1) == source@.take(i as int).push(source@[i as int]));
        i = i + 1;
    }
    assert(source@.take(source@.len() as int) == source@);
    copy
}

fn copy_texts(source: &Vec<String>) -> (copy: Vec<String>)
    ensures
        copy@ == source@,
{
    let mut copy: Vec<String> = Vec::new();
    let mut i: usize = 0;
    while i < source.len()
        invariant
            i <= source@.len(),
            copy@ == source@.take(i as int),
        decreases source@.len() - i,
    {
        copy.push(source[i].clone());
        assert(source@.take(i as int + 1) == source@.take(i as int).push(source@[i as int]));
        i = i + 1;
    }
    assert(source@.take(source@.len() as int) == source@);
    copy
}

fn copy_group_path(source: &Vec<GroupSegment>) -> (copy: Vec<GroupSegment>)
    ensures
        copy@ == source@,
{
    let mut copy: Vec<GroupSegment> = Vec::new();
    let mut i: usize = 0;
    while i < source.len()
        invariant
            i <= source@.len(),
            copy@ == source@.take(i as int),
        decreases source@.len() - i,
    {
        let segment = GroupSegment {
            id: source[i].id,
            name: source[i].name.clone(),
            key: source[i].key.clone(),
        };
        copy.push(segment);
        assert(source@.take(i as int + 1) == source@.take(i as int).push(source@[i as int]));
        i = i + 1;
    }
    assert(source@.take(source@.len() as int) == source@);
    copy
}

/// Opens a track from one observation, with an empty cel slot for every frame.
pub fn new_track(track_id: usize, observation: &Observation, frame_count: usize) -> (track: TrackBuilder)
    ensures
        track.id == track_id,
        track.name == observation.name,
        track.normalized_name == observation.normalized_name,
        track.name_key == observation.name_key,
        track.generic_name == observation.generic_name,
        track.copy_suffixes@ == observation.copy_suffixes@,
        track.representative_source_layer_id == observation.source_layer_id,
        track.cels@ == Seq::new(frame_count as nat, |i: int| None::<PlannedCel>),
        track.observations@.len() == 0,
        track.group_paths@.len() == 0,
{
    let mut cels: Vec<Option<PlannedCel>> = Vec::new();
    let mut i: usize = 0;
    while i < frame_count
        invariant
            i <= frame_count,
            cels@ == Seq::new(i as nat, |k: int| None::<PlannedCel>),
        decreases frame_count - i,
    {
        cels.push(None);
        i = i + 1;
    }
    TrackBuilder {
        id: track_id,
        name: observation.name.clone(),
        normalized_name: observation.normalized_name.clone(),
        name_key: observation.name_key.clone(),
        generic_name: observation.generic_name,
        copy_suffixes: copy_texts(&observation.copy_suffixes),
        representative_source_layer_id: observation.source_layer_id,
        cels,
        observations: Vec::new(),
        group_paths: Vec::new(),
    }
}

/// What a track keeps of an observation.
pub open spec fn summary_of(observation: Observation) -> ObservationSummary {
    ObservationSummary {
        frame_index: observation.frame_index,
        source_order: observation.source_order,
        x: observation.x,
        y: observation.y,
        width: observation.width,
        height: observation.height,
        pixels: observation.pixels,
        frame_container_ids: observation.frame_container_ids,
    }
}

/// Assigns an observation to a track: its cel fills the observation's frame slot, and the
/// track records the observation's group path and summary.
pub fn record_assignment(track: &mut TrackBuilder, observation: &Observation, cel: PlannedCel)
    requires
        observation.frame_index < old(track).cels@.len(),
    ensures
        final(track).cels@ == old(track).cels@.update(observation.frame_index as int, Some(cel)),
        final(track).group_paths@.len() == old(track).group_paths@.len() + 1,
        final(track).group_paths@.take(old(track).group_paths@.len() as int) == old(track).group_paths@,
        final(track).group_paths@.last()@ == observation.group_path@,
        final(track).observations@.len() == old(track).observations@.len() + 1,
        final(track).observations@.take(old(track).observations@.len() as int) == old(track).observations@,
        final(track).observations@.last().frame_index == observation.frame_index,
        final(track).observations@.last().source_order == observation.source_order,
        final(track).observations@.last().x == observation.x,
        final(track).observations@.last().y == observation.y,
        final(track).observations@.last().width == observation.width,
        final(track).observations@.last().height == observation.height,
        final(track).observations@.last().pixels@ == observation.pixels@,
        final(track).observations@.last().frame_container_ids@ == observation.frame_container_ids@,
        final(track).id == old(track).id,
        final(track).name == old(track).name,
        final(track).normalized_name == old(track).normalized_name,
        final(track).name_key == old(track).name_key,
        final(track).generic_name == old(track).generic_name,
        final(track).copy_suffixes == old(track).copy_suffixes,
        final(track).representative_source_layer_id == old(track).representative_source_layer_id,
{
    track.cels.set(observation.frame_index, Some(cel));
    track.group_paths.push(copy_group_path(&observation.group_path));
    track.observations.push(ObservationSummary {
        frame_index: observation.frame_index,
        source_order: observation.source_order,
        x: observation.x,
        y: observation.y,
        width: observation.width,
        height: observation.height,
        pixels: copy_bytes(&observation.pixels),
        frame_container_ids: copy_ids(&observation.frame_container_ids),
    });
}

/// Records one explainable decision for an observation, with the defaults of the residual
/// matcher for the fields the caller does not supply.
pub fn decision(
    observation: &Observation,
    track_id: usize,
    status: AssociationDecisionStatus,
    score: u16,
    margin: u16,
    evidence: Vec<String>,
    alternatives: Vec<String>,
) -> (made: AssociationDecision)
    requires
        observation.frame_index <= u32::MAX,
    ensures
        made.frame_index == observation.frame_index,
        made.source_layer_id == observation.source_layer_id,
        made.source_path == observation.source_path,
        made.original_name == observation.name,
        made.normalized_name == observation.normalized_name,
        made.normalized_base_name == observation.name_key,
        made.family_key == observation.name_key,
        made.copy_suffixes@ == observation.copy_suffixes@,
        made.suffix_limit_reached == observation.suffix_limit_reached,
        made.name_evidence_weight == evidence_weight(observation.generic_name, observation.copy_suffixes@.len()),
        made.association_phase == AssociationPhase::Residual,
        made.same_frame_instance_count == 1,
        !made.matching_tie,
        made.rejection_reasons@.len() == 0,
        made.exclusion_evidence == AssociationExclusionKind::NoRelation,
        !made.same_frame_conflict,
        !made.order_evidence_ignored,
        made.track_id == track_id,
        made.status == status,
        made.score == score,
        made.margin == margin,
        made.evidence == evidence,
        made.alternatives == alternatives,
{
    AssociationDecision {
        frame_index: observation.frame_index as u32,
        source_layer_id: observation.source_layer_id,
        source_path: observation.source_path.clone(),
        original_name: observation.name.clone(),
        normalized_name: observation.normalized_name.clone(),
        normalized_base_name: observation.name_key.clone(),
        family_key: observation.name_key.clone(),
        copy_suffixes: copy_texts(&observation.copy_suffixes),
        suffix_limit_reached: observation.suffix_limit_reached,
        name_evidence_weight: name_evidence_weight(observation),
        association_phase: AssociationPhase::Residual,
        same_frame_instance_count: 1,
        matching_tie: false,
        rejection_reasons: Vec::new(),
        exclusion_evidence: AssociationExclusionKind::NoRelation,
        same_frame_conflict: false,
        order_evidence_ignored: false,
        track_id,
        status,
        score,
        margin,
        evidence,
        alternatives,
    }
}

/// The name of track `track_id`, or `<missing>` where no such track exists.
pub fn track_name(tracks: &Vec<TrackBuilder>, track_id: usize) -> (name: &str)
    ensures
        name@ == (if track_id < tracks@.len() { tracks@[track_id as int].name@ } else { "<missing>"@ }),
{
    if track_id < tracks.len() {
        tracks[track_id].name.as_str()
    } else {
        "<missing>"
    }
}

/// An observation's pixels hold exactly four bytes for every pixel of its rectangle.
pub open spec fn observation_wf(o: Observation) -> bool {
    o.pixels@.len() == o.width * o.height * 4
}

/// Whether pixel `i` of `left` is opaque and lands on an opaque pixel of `right`.
pub open spec fn pixel_overlaps(left: Observation, right: Observation, i: int) -> bool {
    let x = left.x + i % (left.width as int);
    let y = left.y + i / (left.width as int);
    let rx = x - right.x;
    let ry = y - right.y;
    &&& left.pixels@[4 * i + 3] != 0
    &&& 0 <= rx < right.width
    &&& 0 <= ry < right.height
    &&& right.pixels@[(ry * right.width + rx) * 4 + 3] != 0
}

/// Whether some opaque pixel of `left` covers an opaque pixel of `right`.
pub open spec fn alpha_overlaps(left: Observation, right: Observation) -> bool {
    exists|i: int| 0 <= i < left.pixels@.len() / 4 && #[trigger] pixel_overlaps(left, right, i)
}

/// Reports whether two observations share a pixel where both are opaque.
pub fn alpha_overlap(left: &Observation, right: &Observation) -> (overlap: bool)
    requires
        observation_wf(*left),
        observation_wf(*right),
    ensures
        overlap == alpha_overlaps(*left, *right),
{
    let count = left.pixels.len() / 4;
    let right_length = right.pixels.len();
    let mut i: usize = 0;
    while i < count
        invariant
            right_length == right.pixels@.len(),
            left.pixels@.len() <= usize::MAX,
            observation_wf(*left),
            observation_wf(*right),
            count == left.pixels@.len() / 4,
            i <= count,
            forall|j: int| 0 <= j < i ==> !#[trigger] pixel_overlaps(*left, *right, j),
        decreases count - i,
    {
        assert(4 * i + 3 < left.pixels@.len()) by (nonlinear_arith)
            requires
                i < count,
                count == left.pixels@.len() / 4,
        ;
        if left.pixels[4 * i + 3] != 0 {
            assert(left.width > 0) by (nonlinear_arith)
                requires
                    left.pixels@.len() == left.width * left.height * 4,
                    4 * i + 3 < left.pixels@.len(),
            ;
            let w = left.width as usize;
            let x: i64 = left.x as i64 + (i % w) as i64;
            let y: i64 = left.y as i64 + (i / w) as i64;
            let rx: i64 = x - right.x as i64;
            let ry: i64 = y - right.y as i64;
            if rx >= 0 && ry >= 0 && rx < right.width as i64 && ry < right.height as i64 {
                let rw = right.width as usize;
                let rxu = rx as usize;
                let ryu = ry as usize;
                assert((ryu * rw + rxu) * 4 + 3 < right.pixels@.len()) by (nonlinear_arith)
                    requires
                        right.pixels@.len() == right.width * right.height * 4,
                        rw == right.width,
                        rxu < right.width,
                        ryu < right.height,
                ;
                assert(ryu * rw + rxu < right_length) by (nonlinear_arith)
                    requires
                        (ryu * rw + rxu) * 4 + 3 < right_length,
                ;
                let index = (ryu * rw + rxu) * 4 + 3;
                if right.pixels[index] != 0 {
                    assert(pixel_overlaps(*left, *right, i as int));
                    return true;
                }
            }
        }
        i = i + 1;
    }
    false
}

/// Pairwise order evidence between two tracks `first < second`: how often `first` was
/// below `second` where their pixels overlapped, and how often above.
#[derive(Debug, Clone, Copy, PartialEq, Eq, Structural)]
pub struct OrderSupport {
    /// The smaller track ID.
    pub first: usize,
    /// The larger track ID.
    pub second: usize,
    /// Overlaps with `first` below `second`.
    pub forward: u64,
    /// Overlaps with `first` above `second`.
    pub reverse: u64,
}

/// The track that the last decision for frame `frame` and layer `id` among the first `n`
/// decisions assigned.
pub open spec fn decided_track(decisions: Seq<AssociationDecision>, frame: usize, id: u32, n: int) -> Option<usize>
    decreases n,
{
    if n <= 0 || n > decisions.len() {
        None
    } else if decisions[n - 1].frame_index as int == frame as int && decisions[n - 1].source_layer_id == id {
        Some(decisions[n - 1].track_id)
    } else {
        decided_track(decisions, frame, id, n - 1)
    }
}

/// Looks up the track assigned to an observation; the last matching decision wins.
pub(crate) fn mapped_track(decisions: &Vec<AssociationDecision>, frame: usize, id: u32) -> (track: Option<usize>)
    ensures
        track == decided_track(decisions@, frame, id, decisions@.len() as int),
{
    let mut n: usize = decisions.len();
    while n > 0
        invariant
            n <= decisions@.len(),
            decided_track(decisions@, frame, id, decisions@.len() as int) == decided_track(decisions@, frame, id, n as int),
        decreases n,
    {
        let d = &decisions[n - 1];
        if d.frame_index as usize == frame && d.source_layer_id == id {
            return Some(d.track_id);
        }
        n = n - 1;
    }
    None
}

/// Adds one unit, staying at the largest value.
pub open spec fn bump(count: u64) -> u64 {
    if count == u64::MAX { count } else { (count + 1) as u64 }
}

/// The index of the support entry for `(first, second)`, searching from `from`.
pub open spec fn support_index(acc: Seq<OrderSupport>, first: usize, second: usize, from: int) -> Option<int>
    decreases acc.len() - from,
{
    if from < 0 || from >= acc.len() {
        None
    } else if acc[from].first == first && acc[from].second == second {
        Some(from)
    } else {
        support_index(acc, first, second, from + 1)
    }
}

/// An entry with one more overlap in the given direction.
pub open spec fn bumped(entry: OrderSupport, forward: bool) -> OrderSupport {
    if forward {
        OrderSupport { first: entry.first, second: entry.second, forward: bump(entry.forward), reverse: entry.reverse }
    } else {
        OrderSupport { first: entry.first, second: entry.second, forward: entry.forward, reverse: bump(entry.reverse) }
    }
}

/// Records one overlap between two different tracks, in the entry of the ordered pair.
pub open spec fn add_overlap(acc: Seq<OrderSupport>, left_track: usize, right_track: usize) -> Seq<OrderSupport> {
    let first_before = left_track < right_track;
    let first = if first_before { left_track } else { right_track };
    let second = if first_before { right_track } else { left_track };
    match support_index(acc, first, second, 0) {
        Some(k) => acc.update(k, bumped(acc[k], first_before)),
        None => acc.push(
            OrderSupport {
                first,
                second,
                forward: if first_before { 1 } else { 0 },
                reverse: if first_before { 0 } else { 1 },
            },
        ),
    }
}

/// The support after considering the pair of observations `l < r` of frame `f`: counted
/// where the left pixels overlap the right ones and both observations were assigned to
/// different tracks.
pub open spec fn pair_step(frames: Seq<Vec<Observation>>, decisions: Seq<AssociationDecision>, acc: Seq<OrderSupport>, f: int, l: int, r: int) -> Seq<OrderSupport> {
    let left = frames[f]@[l];
    let right = frames[f]@[r];
    if !alpha_overlaps(left, right) {
        acc
    } else {
        match (decided_track(decisions, left.frame_index, left.source_layer_id, decisions.len() as int),
            decided_track(decisions, right.frame_index, right.source_layer_id, decisions.len() as int)) {
            (Some(lt), Some(rt)) => if lt == rt { acc } else { add_overlap(acc, lt, rt) },
            _ => acc,
        }
    }
}

/// The support after the pairs `(l, r..)` of frame `f`.
pub open spec fn supports_right(frames: Seq<Vec<Observation>>, decisions: Seq<AssociationDecision>, acc: Seq<OrderSupport>, f: int, l: int, r: int) -> Seq<OrderSupport>
    decreases frames[f]@.len() - r,
{
    if r < 0 || r >= frames[f]@.len() {
        acc
    } else {
        supports_right(frames, decisions, pair_step(frames, decisions, acc, f, l, r), f, l, r + 1)
    }
}

/// The support after the pairs of frame `f` whose left observation is `l` or later.
pub open spec fn supports_left(frames: Seq<Vec<Observation>>, decisions: Seq<AssociationDecision>, acc: Seq<OrderSupport>, f: int, l: int) -> Seq<OrderSupport>
    decreases frames[f]@.len() - l,
{
    if l < 0 || l >= frames[f]@.len() {
        acc
    } else {
        supports_left(frames, decisions, supports_right(frames, decisions, acc, f, l, l + 1), f, l + 1)
    }
}

/// The support after the frames from `f` on.
pub open spec fn supports_from(frames: Seq<Vec<Observation>>, decisions: Seq<AssociationDecision>, acc: Seq<OrderSupport>, f: int) -> Seq<OrderSupport>
    decreases frames.len() - f,
{
    if f < 0 || f >= frames.len() {
        acc
    } else {
        supports_from(frames, decisions, supports_left(frames, decisions, acc, f, 0), f + 1)
    }
}

/// Whether every observation of every frame is well formed.
pub open spec fn frames_wf(frames: Seq<Vec<Observation>>) -> bool {
    forall|f: int, i: int| 0 <= f < frames.len() && 0 <= i < frames[f]@.len() ==> observation_wf(#[trigger] frames[f]@[i])
}

fn record_overlap(acc: &mut Vec<OrderSupport>, left_track: usize, right_track: usize)
    ensures
        final(acc)@ == add_overlap(old(acc)@, left_track, right_track),
{
    let first_before = left_track < right_track;
    let first = if first_before { left_track } else { right_track };
    let second = if first_before { right_track } else { left_track };
    let mut k: usize = 0;
    while k < acc.len()
        invariant
            k <= acc@.len(),
            acc@ == old(acc)@,
            first_before == (left_track < right_track),
            first == (if first_before { left_track } else { right_track }),
            second == (if first_before { right_track } else { left_track }),
            support_index(acc@, first, second, 0) == support_index(acc@, first, second, k as int),
        decreases acc@.len() - k,
    {
        if acc[k].first == first && acc[k].second == second {
            let entry = acc[k];
            let updated = if first_before {
                OrderSupport {
                    first: entry.first,
                    second: entry.second,
                    forward: if entry.forward == u64::MAX { entry.forward } else { entry.forward + 1 },
                    reverse: entry.reverse,
                }
            } else {
                OrderSupport {
                    first: entry.first,
                    second: entry.second,
                    forward: entry.forward,
                    reverse: if entry.reverse == u64::MAX { entry.reverse } else { entry.reverse + 1 },
                }
            };
            assert(support_index(old(acc)@, first, second, 0) == Some(k as int));
            assert(updated == bumped(entry, first_before));
            acc.set(k, updated);
            return;
        }
        k = k + 1;
    }
    acc.push(OrderSupport {
        first,
        second,
        forward: if first_before { 1 } else { 0 },
        reverse: if first_before { 0 } else { 1 },
    });
}

/// Counts, for every pair of tracks, how often each was below the other where two of
/// their observations in one frame overlap, in order of first appearance.
pub fn collect_order_support(frames: &Vec<Vec<Observation>>, decisions: &Vec<AssociationDecision>) -> (supports: Vec<OrderSupport>)
    requires
        frames_wf(frames@),
    ensures
        supports@ == supports_from(frames@, decisions@, Seq::empty(), 0),
{
    let ghost total = supports_from(frames@, decisions@, Seq::empty(), 0);
    let mut acc: Vec<OrderSupport> = Vec::new();
    let mut f: usize = 0;
    while f < frames.len()
        invariant
            frames_wf(frames@),
            f <= frames@.len(),
            supports_from(frames@, decisions@, acc@, f as int) == total,
        decreases frames@.len() - f,
    {
        let observations = &frames[f];
        let mut l: usize = 0;
        while l < observations.len()
            invariant
                frames_wf(frames@),
                f < frames@.len(),
                observations == frames@[f as int],
                l <= observations@.len(),
                supports_from(frames@, decisions@, supports_left(frames@, decisions@, acc@, f as int, l as int), f + 1) == total,
            decreases observations@.len() - l,
        {
            let mut r: usize = l + 1;
            while r < observations.len()
                invariant
                    frames_wf(frames@),
                    f < frames@.len(),
                    observations == frames@[f as int],
                    l < observations@.len(),
                    l + 1 <= r <= observations@.len(),
                    supports_from(frames@, decisions@, supports_left(frames@, decisions@, supports_right(frames@, decisions@, acc@, f as int, l as int, r as int), f as int, l + 1), f + 1) == total,
                decreases observations@.len() - r,
            {
                let left = &observations[l];
                let right = &observations[r];
                let ghost before = acc@;
                if alpha_overlap(left, right) {
                    let left_track = mapped_track(decisions, left.frame_index, left.source_layer_id);
                    let right_track = mapped_track(decisions, right.frame_index, right.source_layer_id);
                    match (left_track, right_track) {
                        (Some(lt), Some(rt)) => {
                            if lt != rt {
                                record_overlap(&mut acc, lt, rt);
                            }
                        },
                        _ => {},
                    }
                }
                assert(acc@ == pair_step(frames@, decisions@, before, f as int, l as int, r as int));
                r = r + 1;
            }
            l = l + 1;
        }
        f = f + 1;
    }
    acc
}

/// The larger of the two counts of a support entry.
pub open spec fn support_winner(s: OrderSupport) -> int {
    if s.forward >= s.reverse { s.forward as int } else { s.reverse as int }
}

/// The distance between the two counts of a support entry.
pub open spec fn support_gap(s: OrderSupport) -> int {
    if s.forward >= s.reverse { s.forward - s.reverse } else { s.reverse - s.forward }
}

/// The review order of support entries: the strongest evidence first, then the clearest
/// majority, then by track pair.
pub open spec fn support_leq(a: OrderSupport, b: OrderSupport) -> bool {
    if support_winner(a) != support_winner(b) {
        support_winner(a) > support_winner(b)
    } else if support_gap(a) != support_gap(b) {
        support_gap(a) > support_gap(b)
    } else if a.first != b.first {
        a.first < b.first
    } else if a.second != b.second {
        a.second < b.second
    } else if a.forward != b.forward {
        a.forward < b.forward
    } else {
        a.reverse <= b.reverse
    }
}

/// The review order as a relation.
pub open spec fn support_order() -> spec_fn(OrderSupport, OrderSupport) -> bool {
    |a: OrderSupport, b: OrderSupport| support_leq(a, b)
}

/// The review order of support entries is a total order.
pub proof fn lemma_support_order_total()
    ensures
        vstd::relations::total_ordering(support_order()),
{
    let r = support_order();
    assert forall|a: OrderSupport, b: OrderSupport| #[trigger] r(a, b) && #[trigger] r(b, a) implies a == b by {}
    assert forall|a: OrderSupport, b: OrderSupport, c: OrderSupport| #[trigger] r(a, b) && #[trigger] r(b, c) implies r(a, c) by {}
}

fn support_before(a: &OrderSupport, b: &OrderSupport) -> (result: bool)
    ensures
        result == support_leq(*a, *b),
{
    let wa = if a.forward >= a.reverse { a.forward } else { a.reverse };
    let wb = if b.forward >= b.reverse { b.forward } else { b.reverse };
    let ga = if a.forward >= a.reverse { a.forward - a.reverse } else { a.reverse - a.forward };
    let gb = if b.forward >= b.reverse { b.forward - b.reverse } else { b.reverse - b.forward };
    if wa != wb {
        wa > wb
    } else if ga != gb {
        ga > gb
    } else if a.first != b.first {
        a.first < b.first
    } else if a.second != b.second {
        a.second < b.second
    } else if a.forward != b.forward {
        a.forward < b.forward
    } else {
        a.reverse <= b.reverse
    }
}

/// Sorts support entries into review order.
pub fn sort_supports(entries: Vec<OrderSupport>) -> (sorted: Vec<OrderSupport>)
    ensures
        sorted@ == entries@.sort_by(support_order()),
{
    proof {
        lemma_support_order_total();
    }
    let ghost leq = support_order();
    let mut sorted: Vec<OrderSupport> = Vec::new();
    assert(entries@.take(0) =~= sorted@);
    let mut i: usize = 0;
    while i < entries.len()
        invariant
            leq == support_order(),
            vstd::relations::total_ordering(leq),
            i <= entries@.len(),
            vstd::relations::sorted_by(sorted@, leq),
            sorted@.to_multiset() == entries@.take(i as int).to_multiset(),
        decreases entries@.len() - i,
    {
        let x = entries[i];
        let mut p: usize = 0;
        while p < sorted.len() && support_before(&sorted[p], &x)
            invariant
                leq == support_order(),
                p <= sorted@.len(),
                forall|k: int| 0 <= k < p ==> #[trigger] leq(sorted@[k], x),
            decreases sorted@.len() - p,
        {
            p = p + 1;
        }
        let ghost before = sorted@;
        proof {
            if p < before.len() {
                assert(!leq(before[p as int], x));
                assert(leq(x, before[p as int]));
                assert forall|k: int| p <= k < before.len() implies #[trigger] leq(x, before[k]) by {
                    if k > p {
                        assert(leq(before[p as int], before[k]));
                    }
                }
            }
        }
        sorted.insert(p, x);
        proof {
            vstd::seq_lib::to_multiset_insert(before, p as int, x);
            assert(entries@.take(i as int + 1) == entries@.take(i as int).push(x));
            vstd::seq_lib::to_multiset_build(entries@.take(i as int), x);
            assert forall|a: int, c: int| 0 <= a < c < sorted@.len() implies #[trigger] leq(sorted@[a], sorted@[c]) by {
                if a < p && c < p {
                    assert(leq(before[a], before[c]));
                } else if a < p && c == p {
                } else if a < p && c > p {
                    assert(leq(before[a], before[c - 1]));
                } else if a == p {
                } else {
                    assert(leq(before[a - 1], before[c - 1]));
                }
            }
        }
        i = i + 1;
    }
    proof {
        assert(entries@.take(entries@.len() as int) == entries@);
        entries@.lemma_sort_by_ensures(leq);
        vstd::seq_lib::lemma_sorted_unique(sorted@, entries@.sort_by(leq), leq);
    }
    sorted
}

/// Whether a set of tracks holds every track that an edge leads to from a track in it.
pub open spec fn closed_under(s: Set<usize>, edges: Seq<(usize, usize)>) -> bool {
    forall|i: int| 0 <= i < edges.len() && s.contains(#[trigger] edges[i].0) ==> s.contains(edges[i].1)
}

/// Whether `to` can be reached from `from` along the edges: every set that holds `from`
/// and is closed under the edges holds `to`.
pub open spec fn reaches(edges: Seq<(usize, usize)>, from: usize, to: usize) -> bool {
    forall|s: Set<usize>| #[trigger] closed_under(s, edges) && s.contains(from) ==> s.contains(to)
}

/// Whether adding the edge `before -> after` would close a cycle.
pub open spec fn creates_cycle(edges: Seq<(usize, usize)>, before: usize, after: usize) -> bool {
    before == after || reaches(edges, after, before)
}

/// The number of the first `n` edges whose target lies outside `reached`.
pub open spec fn unreached_targets(edges: Seq<(usize, usize)>, reached: Set<usize>, n: int) -> nat
    decreases n,
{
    if n <= 0 || n > edges.len() {
        0
    } else {
        unreached_targets(edges, reached, n - 1) + if reached.contains(edges[n - 1].1) { 0nat } else { 1nat }
    }
}

proof fn lemma_unreached_shrinks(edges: Seq<(usize, usize)>, small: Set<usize>, large: Set<usize>, n: int, witness: int)
    requires
        0 <= n <= edges.len(),
        small.subset_of(large),
    ensures
        unreached_targets(edges, large, n) <= unreached_targets(edges, small, n),
        0 <= witness < n && !small.contains(edges[witness].1) && large.contains(edges[witness].1)
            ==> unreached_targets(edges, large, n) < unreached_targets(edges, small, n),
    decreases n,
{
    if n > 0 {
        lemma_unreached_shrinks(edges, small, large, n - 1, witness);
    }
}

fn contains_track(tracks: &Vec<usize>, track: usize) -> (found: bool)
    ensures
        found == tracks@.contains(track),
{
    let mut i: usize = 0;
    while i < tracks.len()
        invariant
            i <= tracks@.len(),
            forall|j: int| 0 <= j < i ==> tracks@[j] != track,
        decreases tracks@.len() - i,
    {
        if tracks[i] == track {
            return true;
        }
        i = i + 1;
    }
    false
}

/// Whether adding the edge `before -> after` to `edges` would close a cycle: the same
/// track on both ends, or a path back from `after` to `before`.
pub fn would_create_cycle(edges: &Vec<(usize, usize)>, before: usize, after: usize) -> (cycle: bool)
    ensures
        cycle == creates_cycle(edges@, before, after),
{
    if before == after {
        return true;
    }
    let mut reached: Vec<usize> = Vec::new();
    reached.push(after);
    assert(reached@[0] == after);
    let mut changed = true;
    while changed
        invariant
            reached@.contains(after),
            forall|x: usize| #[trigger] reached@.contains(x) ==> reaches(edges@, after, x),
            !changed ==> closed_under(reached@.to_set(), edges@),
        decreases unreached_targets(edges@, reached@.to_set(), edges@.len() as int) + if changed { 1nat } else { 0nat },
    {
        let ghost start = reached@;
        changed = false;
        let mut k: usize = 0;
        while k < edges.len()
            invariant
                k <= edges@.len(),
                reached@.contains(after),
                start.to_set().subset_of(reached@.to_set()),
                forall|x: usize| #[trigger] reached@.contains(x) ==> reaches(edges@, after, x),
                !changed ==> reached@ == start,
                !changed ==> forall|j: int| 0 <= j < k && reached@.contains(#[trigger] edges@[j].0) ==> reached@.contains(edges@[j].1),
                changed ==> unreached_targets(edges@, reached@.to_set(), edges@.len() as int) < unreached_targets(edges@, start.to_set(), edges@.len() as int),
            decreases edges@.len() - k,
        {
            let (from, to) = edges[k];
            if contains_track(&reached, from) && !contains_track(&reached, to) {
                let ghost previous = reached@;
                reached.push(to);
                proof {
                    assert forall|s: Set<usize>| #[trigger] closed_under(s, edges@) && s.contains(after) implies s.contains(to) by {
                        assert(reaches(edges@, after, from));
                        assert(s.contains(from));
                        assert(s.contains(edges@[k as int].0));
                    }
                    assert(reaches(edges@, after, to));
                    assert forall|x: usize| #[trigger] reached@.contains(x) implies reaches(edges@, after, x) by {
                        if x != to {
                            let i = choose|i: int| 0 <= i < reached@.len() && reached@[i] == x;
                            assert(previous[i] == x);
                            assert(previous.contains(x));
                        }
                    }
                    assert(reached@.contains(after)) by {
                        let i = choose|i: int| 0 <= i < previous.len() && previous[i] == after;
                        assert(reached@[i] == after);
                    }
                    assert forall|x: usize| #[trigger] previous.to_set().contains(x) implies reached@.to_set().contains(x) by {
                        assert(previous.contains(x));
                        let i = choose|i: int| 0 <= i < previous.len() && previous[i] == x;
                        assert(reached@[i] == x);
                        assert(reached@.contains(x));
                    }
                    assert(previous.to_set().subset_of(reached@.to_set()));
                    assert(reached@[reached@.len() - 1] == to);
                    assert(reached@.contains(to));
                    assert(reached@.to_set().contains(to));
                    lemma_unreached_shrinks(edges@, previous.to_set(), reached@.to_set(), edges@.len() as int, k as int);
                    lemma_unreached_shrinks(edges@, start.to_set(), previous.to_set(), edges@.len() as int, k as int);
                    lemma_unreached_shrinks(edges@, start.to_set(), reached@.to_set(), edges@.len() as int, k as int);
                }
                changed = true;
            }
            k = k + 1;
        }
    }
    let found = contains_track(&reached, before);
    proof {
        if !found {
            assert(closed_under(reached@.to_set(), edges@));
            assert(reached@.to_set().contains(after));
            assert(!reached@.to_set().contains(before));
        }
    }
    found
}

/// The base position of a track: the value of its last entry among the first `n`, or the
/// largest position for a track without one.
pub open spec fn base_key(base: Seq<(usize, i32)>, id: usize, n: int) -> i32
    decreases n,
{
    if n <= 0 || n > base.len() {
        i32::MAX
    } else if base[n - 1].0 == id {
        base[n - 1].1
    } else {
        base_key(base, id, n - 1)
    }
}

/// Whether an edge from a track still waiting leads to `id`.
pub open spec fn blocked(remaining: Seq<usize>, edges: Seq<(usize, usize)>, id: usize) -> bool {
    exists|j: int| 0 <= j < edges.len() && #[trigger] edges[j].1 == id && remaining.contains(edges[j].0)
}

/// Whether some waiting track has no waiting predecessor.
pub open spec fn some_free(remaining: Seq<usize>, edges: Seq<(usize, usize)>) -> bool {
    exists|i: int| 0 <= i < remaining.len() && !blocked(remaining, edges, #[trigger] remaining[i])
}

/// Whether waiting track `i` may be placed next: it has no waiting predecessor, or every
/// waiting track has one.
pub open spec fn placeable(remaining: Seq<usize>, edges: Seq<(usize, usize)>, i: int) -> bool {
    !some_free(remaining, edges) || !blocked(remaining, edges, remaining[i])
}

/// The index of the first placeable waiting track with the smallest base position, among
/// those from `k` on, given the best index so far.
pub open spec fn pick_from(remaining: Seq<usize>, edges: Seq<(usize, usize)>, base: Seq<(usize, i32)>, k: int, best: Option<int>) -> Option<int>
    decreases remaining.len() - k,
{
    if k < 0 || k >= remaining.len() {
        best
    } else if placeable(remaining, edges, k) && (best matches Some(b) ==> base_key(base, remaining[k], base.len() as int) < base_key(base, remaining[b], base.len() as int)) {
        pick_from(remaining, edges, base, k + 1, Some(k))
    } else {
        pick_from(remaining, edges, base, k + 1, best)
    }
}

/// The stable order of the waiting tracks: repeatedly place the placeable track with the
/// smallest base position, the earliest on ties.
pub open spec fn stable_order(remaining: Seq<usize>, edges: Seq<(usize, usize)>, base: Seq<(usize, i32)>) -> Seq<usize>
    decreases remaining.len(),
{
    if remaining.len() == 0 {
        Seq::empty()
    } else {
        match pick_from(remaining, edges, base, 0, None) {
            Some(i) => if 0 <= i < remaining.len() {
                seq![remaining[i]] + stable_order(remaining.remove(i), edges, base)
            } else {
                Seq::empty()
            },
            None => Seq::empty(),
        }
    }
}

proof fn lemma_pick_from(remaining: Seq<usize>, edges: Seq<(usize, usize)>, base: Seq<(usize, i32)>, k: int, best: Option<int>)
    requires
        0 <= k <= remaining.len(),
        best matches Some(b) ==> 0 <= b < remaining.len() && placeable(remaining, edges, b),
        best is None ==> exists|i: int| k <= i < remaining.len() && #[trigger] placeable(remaining, edges, i),
    ensures
        pick_from(remaining, edges, base, k, best) matches Some(i) && 0 <= i < remaining.len(),
    decreases remaining.len() - k,
{
    if k < remaining.len() {
        lemma_pick_from(remaining, edges, base, k + 1, if placeable(remaining, edges, k) && (best matches Some(b) ==> base_key(base, remaining[k], base.len() as int) < base_key(base, remaining[b], base.len() as int)) { Some(k) } else { best });
    }
}

proof fn lemma_some_placeable(remaining: Seq<usize>, edges: Seq<(usize, usize)>)
    requires
        remaining.len() > 0,
    ensures
        exists|i: int| 0 <= i < remaining.len() && #[trigger] placeable(remaining, edges, i),
{
    if some_free(remaining, edges) {
        let i = choose|i: int| 0 <= i < remaining.len() && !blocked(remaining, edges, #[trigger] remaining[i]);
        assert(placeable(remaining, edges, i));
    } else {
        assert(placeable(remaining, edges, 0));
    }
}

fn base_position(base: &Vec<(usize, i32)>, id: usize) -> (key: i32)
    ensures
        key == base_key(base@, id, base@.len() as int),
{
    let mut n: usize = base.len();
    while n > 0
        invariant
            n <= base@.len(),
            base_key(base@, id, base@.len() as int) == base_key(base@, id, n as int),
        decreases n,
    {
        if base[n - 1].0 == id {
            return base[n - 1].1;
        }
        n = n - 1;
    }
    i32::MAX
}

fn is_blocked(remaining: &Vec<usize>, edges: &Vec<(usize, usize)>, id: usize) -> (result: bool)
    ensures
        result == blocked(remaining@, edges@, id),
{
    let mut j: usize = 0;
    while j < edges.len()
        invariant
            j <= edges@.len(),
            forall|q: int| 0 <= q < j ==> !(#[trigger] edges@[q].1 == id && remaining@.contains(edges@[q].0)),
        decreases edges@.len() - j,
    {
        if edges[j].1 == id && contains_track(remaining, edges[j].0) {
            return true;
        }
        j = j + 1;
    }
    false
}

fn pick_next(remaining: &Vec<usize>, edges: &Vec<(usize, usize)>, base: &Vec<(usize, i32)>) -> (index: usize)
    requires
        remaining@.len() > 0,
    ensures
        pick_from(remaining@, edges@, base@, 0, None) == Some(index as int),
        index < remaining@.len(),
{
    let mut free = false;
    let mut i: usize = 0;
    while i < remaining.len()
        invariant
            i <= remaining@.len(),
            free == exists|q: int| 0 <= q < i && !blocked(remaining@, edges@, #[trigger] remaining@[q]),
        decreases remaining@.len() - i,
    {
        if !is_blocked(remaining, edges, remaining[i]) {
            free = true;
        }
        i = i + 1;
    }
    assert(free == some_free(remaining@, edges@));
    proof {
        lemma_some_placeable(remaining@, edges@);
        lemma_pick_from(remaining@, edges@, base@, 0, None);
    }
    let mut best: Option<usize> = None;
    let mut best_key: i32 = i32::MAX;
    let mut k: usize = 0;
    while k < remaining.len()
        invariant
            k <= remaining@.len(),
            free == some_free(remaining@, edges@),
            best matches Some(b) ==> b < k && best_key == base_key(base@, remaining@[b as int], base@.len() as int),
            pick_from(remaining@, edges@, base@, 0, None) == pick_from(remaining@, edges@, base@, k as int, match best { Some(b) => Some(b as int), None => None }),
        decreases remaining@.len() - k,
    {
        let eligible = !free || !is_blocked(remaining, edges, remaining[k]);
        assert(eligible == placeable(remaining@, edges@, k as int));
        if eligible {
            let key = base_position(base, remaining[k]);
            let better = match best {
                Some(_) => key < best_key,
                None => true,
            };
            if better {
                best = Some(k);
                best_key = key;
            }
        }
        k = k + 1;
    }
    match best {
        Some(b) => b,
        None => {
            assert(false);
            0
        },
    }
}

/// Orders tracks so that every edge's first track comes before its second where the edges
/// allow it, choosing among the free tracks the one with the smallest base position; when
/// every waiting track has a waiting predecessor, the smallest base position is placed.
pub fn stable_id_order(ids: &Vec<usize>, edges: &Vec<(usize, usize)>, base: &Vec<(usize, i32)>) -> (order: Vec<usize>)
    ensures
        order@ == stable_order(ids@, edges@, base@),
{
    let mut remaining: Vec<usize> = Vec::new();
    let mut i: usize = 0;
    while i < ids.len()
        invariant
            i <= ids@.len(),
            remaining@ == ids@.take(i as int),
        decreases ids@.len() - i,
    {
        remaining.push(ids[i]);
        assert(ids@.take(i as int + 1) == ids@.take(i as int).push(ids@[i as int]));
        i = i + 1;
    }
    assert(ids@.take(ids@.len() as int) == ids@);
    let mut order: Vec<usize> = Vec::new();
    while remaining.len() > 0
        invariant
            stable_order(ids@, edges@, base@) == order@ + stable_order(remaining@, edges@, base@),
        decreases remaining@.len(),
    {
        let index = pick_next(&remaining, edges, base);
        let ghost before = remaining@;
        let chosen = remaining.remove(index);
        let ghost previous = order@;
        order.push(chosen);
        assert(stable_order(before, edges@, base@) == seq![chosen] + stable_order(remaining@, edges@, base@));
        assert(previous + (seq![chosen] + stable_order(remaining@, edges@, base@)) == order@ + stable_order(remaining@, edges@, base@));
    }
    assert(order@ + Seq::<usize>::empty() == order@);
    order
}

/// Why a pair of tracks did not yield an order edge.
#[derive(Debug, Clone, Copy, PartialEq, Eq, Structural)]
pub enum OrderNoteKind {
    /// The support for either order was not a clear majority.
    Unresolved,
    /// The two tracks are not neighbours in the anchor order.
    AnchorBarrier,
    /// The edge would close a cycle with the edges accepted before it.
    Cycle,
}

/// A pair of tracks whose support did not become an order edge.
pub struct OrderNote {
    /// Why no edge was added.
    pub kind: OrderNoteKind,
    /// The first track named in the diagnostic.
    pub first: usize,
    /// The second track named in the diagnostic.
    pub second: usize,
    /// Overlaps with the smaller track below.
    pub forward: u64,
    /// Overlaps with the smaller track above.
    pub reverse: u64,
}

/// Whether the larger count is a clear majority: at least two, at least two more than the
/// smaller count, and at least two thirds of all overlaps.
pub open spec fn confident(forward: int, reverse: int) -> bool {
    let winner = if forward >= reverse { forward } else { reverse };
    let loser = if forward >= reverse { reverse } else { forward };
    winner >= 2 && winner >= loser + 2 && winner * 3 >= (winner + loser) * 2
}

/// The last position of `track` in the anchor order among the first `n` entries.
pub open spec fn anchor_position(anchor: Seq<usize>, track: usize, n: int) -> Option<int>
    decreases n,
{
    if n <= 0 || n > anchor.len() {
        None
    } else if anchor[n - 1] == track {
        Some(n - 1)
    } else {
        anchor_position(anchor, track, n - 1)
    }
}

/// Whether two tracks are not neighbours in the anchor order (or one is missing from it).
pub open spec fn anchor_far(anchor: Seq<usize>, before: usize, after: usize) -> bool {
    match (anchor_position(anchor, before, anchor.len() as int), anchor_position(anchor, after, anchor.len() as int)) {
        (Some(x), Some(y)) => x - y > 1 || y - x > 1,
        _ => true,
    }
}

/// Reviews the support entries from `k` on: a clear majority adds an edge from the track
/// below to the track above, unless the tracks are not anchor neighbours or the edge would
/// close a cycle; every other entry leaves a note.
pub open spec fn review(rels: Seq<OrderSupport>, anchor: Seq<usize>, k: int, edges: Seq<(usize, usize)>, notes: Seq<OrderNote>) -> (Seq<(usize, usize)>, Seq<OrderNote>)
    decreases rels.len() - k,
{
    if k < 0 || k >= rels.len() {
        (edges, notes)
    } else {
        let r = rels[k];
        if !confident(r.forward as int, r.reverse as int) {
            review(rels, anchor, k + 1, edges, notes.push(OrderNote { kind: OrderNoteKind::Unresolved, first: r.first, second: r.second, forward: r.forward, reverse: r.reverse }))
        } else {
            let before = if r.forward >= r.reverse { r.first } else { r.second };
            let after = if r.forward >= r.reverse { r.second } else { r.first };
            if anchor_far(anchor, before, after) {
                review(rels, anchor, k + 1, edges, notes.push(OrderNote { kind: OrderNoteKind::AnchorBarrier, first: before, second: after, forward: r.forward, reverse: r.reverse }))
            } else if creates_cycle(edges, before, after) {
                review(rels, anchor, k + 1, edges, notes.push(OrderNote { kind: OrderNoteKind::Cycle, first: before, second: after, forward: r.forward, reverse: r.reverse }))
            } else {
                review(rels, anchor, k + 1, edges.push((before, after)), notes)
            }
        }
    }
}

/// Reviewing more entries never drops a note.
proof fn lemma_review_keeps_notes(rels: Seq<OrderSupport>, anchor: Seq<usize>, k: int, edges: Seq<(usize, usize)>, notes: Seq<OrderNote>)
    ensures
        review(rels, anchor, k, edges, notes).1.len() >= notes.len(),
        forall|i: int| 0 <= i < notes.len() ==> #[trigger] review(rels, anchor, k, edges, notes).1[i] == notes[i],
    decreases rels.len() - k,
{
    if 0 <= k < rels.len() {
        let r = rels[k];
        let before = if r.forward >= r.reverse { r.first } else { r.second };
        let after = if r.forward >= r.reverse { r.second } else { r.first };
        if !confident(r.forward as int, r.reverse as int) {
            lemma_review_keeps_notes(rels, anchor, k + 1, edges, notes.push(OrderNote { kind: OrderNoteKind::Unresolved, first: r.first, second: r.second, forward: r.forward, reverse: r.reverse }));
        } else if anchor_far(anchor, before, after) {
            lemma_review_keeps_notes(rels, anchor, k + 1, edges, notes.push(OrderNote { kind: OrderNoteKind::AnchorBarrier, first: before, second: after, forward: r.forward, reverse: r.reverse }));
        } else if creates_cycle(edges, before, after) {
            lemma_review_keeps_notes(rels, anchor, k + 1, edges, notes.push(OrderNote { kind: OrderNoteKind::Cycle, first: before, second: after, forward: r.forward, reverse: r.reverse }));
        } else {
            lemma_review_keeps_notes(rels, anchor, k + 1, edges.push((before, after)), notes);
        }
    }
}

/// The base positions that the anchor order gives its tracks.
pub open spec fn anchor_base(anchor: Seq<usize>) -> Seq<(usize, i32)> {
    Seq::new(anchor.len(), |i: int| (anchor[i], i as i32))
}

/// The track IDs `0..count`.
pub open spec fn track_ids(count: nat) -> Seq<usize> {
    Seq::new(count, |i: int| i as usize)
}

/// The reviewed support entries of a document: edges accepted and notes left.
pub open spec fn reviewed_support(frames: Seq<Vec<Observation>>, decisions: Seq<AssociationDecision>, anchor: Seq<usize>) -> (Seq<(usize, usize)>, Seq<OrderNote>) {
    review(supports_from(frames, decisions, Seq::empty(), 0).sort_by(support_order()), anchor, 0, Seq::empty(), Seq::empty())
}

fn anchor_index(anchor: &Vec<usize>, track: usize) -> (position: Option<usize>)
    ensures
        match position {
            Some(p) => anchor_position(anchor@, track, anchor@.len() as int) == Some(p as int),
            None => anchor_position(anchor@, track, anchor@.len() as int) is None,
        },
{
    let mut n: usize = anchor.len();
    while n > 0
        invariant
            n <= anchor@.len(),
            anchor_position(anchor@, track, anchor@.len() as int) == anchor_position(anchor@, track, n as int),
        decreases n,
    {
        if anchor[n - 1] == track {
            return Some(n - 1);
        }
        n = n - 1;
    }
    None
}

/// The name a diagnostic gives track `id`: its name, or `<missing>` for no such track.
pub open spec fn track_name_text(tracks: Seq<TrackBuilder>, id: usize) -> Seq<char> {
    if id < tracks.len() { tracks[id as int].name@ } else { "<missing>"@ }
}

/// The diagnostic line of a pair of tracks, given their names.
pub open spec fn note_line(kind: OrderNoteKind, first: usize, first_name: Seq<char>, second: usize, second_name: Seq<char>, forward: u64, reverse: u64) -> Seq<char> {
    let a = crate::text::decimal(first as int) + " ("@ + first_name + ")"@;
    let b = crate::text::decimal(second as int) + " ("@ + second_name + ")"@;
    let support = "support "@ + crate::text::decimal(forward as int) + "-"@ + crate::text::decimal(reverse as int);
    match kind {
        OrderNoteKind::Unresolved => "stable order unresolved for tracks "@ + a + " and "@ + b + ": "@ + support
            + "; anchor order retained"@,
        OrderNoteKind::AnchorBarrier => "stable order retained anchor barrier between tracks "@ + a + " and "@ + b + ": "@ + support,
        OrderNoteKind::Cycle => "stable order cycle skipped for tracks "@ + a + " before "@ + b + ": "@ + support,
    }
}

/// The diagnostic of a pair of tracks whose support did not become an order edge.
pub open spec fn note_text(note: OrderNote, tracks: Seq<TrackBuilder>) -> Seq<char> {
    note_line(note.kind, note.first, track_name_text(tracks, note.first), note.second, track_name_text(tracks, note.second), note.forward, note.reverse)
}

/// The diagnostics of a list of notes.
pub open spec fn note_texts(notes: Seq<OrderNote>, tracks: Seq<TrackBuilder>) -> Seq<Seq<char>> {
    notes.map_values(|note: OrderNote| note_text(note, tracks))
}

#[verifier::external_body]
fn unresolved_message(first: usize, first_name: &str, second: usize, second_name: &str, forward: u64, reverse: u64) -> (message: String)
    ensures
        message@ == note_line(OrderNoteKind::Unresolved, first, first_name@, second, second_name@, forward, reverse),
{
    format!("stable order unresolved for tracks {first} ({first_name}) and {second} ({second_name}): support {forward}-{reverse}; anchor order retained")
}

#[verifier::external_body]
fn barrier_message(before: usize, before_name: &str, after: usize, after_name: &str, forward: u64, reverse: u64) -> (message: String)
    ensures
        message@ == note_line(OrderNoteKind::AnchorBarrier, before, before_name@, after, after_name@, forward, reverse),
{
    format!("stable order retained anchor barrier between tracks {before} ({before_name}) and {after} ({after_name}): support {forward}-{reverse}")
}

#[verifier::external_body]
fn cycle_message(before: usize, before_name: &str, after: usize, after_name: &str, forward: u64, reverse: u64) -> (message: String)
    ensures
        message@ == note_line(OrderNoteKind::Cycle, before, before_name@, after, after_name@, forward, reverse),
{
    format!("stable order cycle skipped for tracks {before} ({before_name}) before {after} ({after_name}): support {forward}-{reverse}")
}

/// Establishes the long-lived order of the logical tracks. In anchor mode the anchor order
/// stands. Otherwise the pairwise order evidence of overlapping observations is reviewed,
/// strongest first; clear majorities between anchor neighbours become order edges unless
/// they would close a cycle, and the tracks are then ordered along the edges by anchor
/// position. Every rejected pair leaves a diagnostic; in strict mode the first one is an
/// error.
/// The diagnostic of a pair of tracks whose support did not become an order edge.
fn note_message(tracks: &Vec<TrackBuilder>, kind: OrderNoteKind, first: usize, second: usize, forward: u64, reverse: u64) -> (message: String)
    ensures
        message@ == note_text(OrderNote { kind, first, second, forward, reverse }, tracks@),
{
    let first_name = track_name(tracks, first);
    let second_name = track_name(tracks, second);
    match kind {
        OrderNoteKind::Unresolved => unresolved_message(first, first_name, second, second_name, forward, reverse),
        OrderNoteKind::AnchorBarrier => barrier_message(first, first_name, second, second_name, forward, reverse),
        OrderNoteKind::Cycle => cycle_message(first, first_name, second, second_name, forward, reverse),
    }
}

pub fn stable_track_order(
    tracks: &Vec<TrackBuilder>,
    frames: &Vec<Vec<Observation>>,
    decisions: &Vec<AssociationDecision>,
    anchor_order: &Vec<usize>,
    mode: StableOrderMode,
) -> (ordered: Result<(Vec<usize>, Vec<String>), String>)
    requires
        frames_wf(frames@),
        anchor_order@.len() <= i32::MAX,
    ensures
        mode == StableOrderMode::Anchor ==> (ordered matches Ok((order, diagnostics)) && order@ == anchor_order@
            && diagnostics@.len() == 0),
        mode != StableOrderMode::Anchor ==> {
            let (edges, notes) = reviewed_support(frames@, decisions@, anchor_order@);
            match ordered {
                Ok((order, diagnostics)) => {
                    &&& (mode == StableOrderMode::Strict ==> notes.len() == 0)
                    &&& order@ == stable_order(track_ids(tracks@.len()), edges, anchor_base(anchor_order@))
                    &&& self::scoring::texts(diagnostics@) == note_texts(notes, tracks@)
                },
                Err(message) => mode == StableOrderMode::Strict && notes.len() > 0 && message@ == note_text(notes[0], tracks@),
            }
        },
{
    if mode == StableOrderMode::Anchor {
        let mut order: Vec<usize> = Vec::new();
        let mut i: usize = 0;
        while i < anchor_order.len()
            invariant
                i <= anchor_order@.len(),
                order@ == anchor_order@.take(i as int),
            decreases anchor_order@.len() - i,
        {
            order.push(anchor_order[i]);
            assert(anchor_order@.take(i as int + 1) == anchor_order@.take(i as int).push(anchor_order@[i as int]));
            i = i + 1;
        }
        assert(anchor_order@.take(anchor_order@.len() as int) == anchor_order@);
        return Ok((order, Vec::new()));
    }
    let supports = collect_order_support(frames, decisions);
    let relations = sort_supports(supports);
    let ghost rels = relations@;
    let ghost total = reviewed_support(frames@, decisions@, anchor_order@);
    let mut edges: Vec<(usize, usize)> = Vec::new();
    let mut diagnostics: Vec<String> = Vec::new();
    let ghost mut notes: Seq<OrderNote> = Seq::empty();
    let mut k: usize = 0;
    while k < relations.len()
        invariant
            rels == relations@,
            total == reviewed_support(frames@, decisions@, anchor_order@),
            k <= rels.len(),
            mode != StableOrderMode::Anchor,
            mode == StableOrderMode::Strict ==> notes.len() == 0,
            self::scoring::texts(diagnostics@) == note_texts(notes, tracks@),
            review(rels, anchor_order@, k as int, edges@, notes) == total,
        decreases rels.len() - k,
    {
        let r = relations[k];
        let winner = if r.forward >= r.reverse { r.forward } else { r.reverse };
        let loser = if r.forward >= r.reverse { r.reverse } else { r.forward };
        let sure = winner >= 2 && winner - 2 >= loser && (winner as u128) * 3 >= ((winner as u128) + (loser as u128)) * 2;
        assert(sure == confident(r.forward as int, r.reverse as int));
        assert(r == rels[k as int]);
        if !sure {
            assert(review(rels, anchor_order@, k as int, edges@, notes) == review(rels, anchor_order@, k + 1, edges@, notes.push(OrderNote { kind: OrderNoteKind::Unresolved, first: r.first, second: r.second, forward: r.forward, reverse: r.reverse })));
            let message = note_message(tracks, OrderNoteKind::Unresolved, r.first, r.second, r.forward, r.reverse);
            if mode == StableOrderMode::Strict {
                proof {
                    lemma_review_keeps_notes(rels, anchor_order@, k + 1, edges@, notes.push(OrderNote { kind: OrderNoteKind::Unresolved, first: r.first, second: r.second, forward: r.forward, reverse: r.reverse }));
                        assert(message@ == note_text(OrderNote { kind: OrderNoteKind::Unresolved, first: r.first, second: r.second, forward: r.forward, reverse: r.reverse }, tracks@));
                        assert(notes.push(OrderNote { kind: OrderNoteKind::Unresolved, first: r.first, second: r.second, forward: r.forward, reverse: r.reverse })[0] == OrderNote { kind: OrderNoteKind::Unresolved, first: r.first, second: r.second, forward: r.forward, reverse: r.reverse });
                }
                return Err(message);
            }
            let ghost before_texts = self::scoring::texts(diagnostics@);
            diagnostics.push(message);
            proof {
                assert(message@ == note_text(OrderNote { kind: OrderNoteKind::Unresolved, first: r.first, second: r.second, forward: r.forward, reverse: r.reverse }, tracks@));
                assert(self::scoring::texts(diagnostics@) =~= before_texts.push(note_text(OrderNote { kind: OrderNoteKind::Unresolved, first: r.first, second: r.second, forward: r.forward, reverse: r.reverse }, tracks@)));
                assert(note_texts(notes.push(OrderNote { kind: OrderNoteKind::Unresolved, first: r.first, second: r.second, forward: r.forward, reverse: r.reverse }), tracks@) =~= note_texts(notes, tracks@).push(note_text(OrderNote { kind: OrderNoteKind::Unresolved, first: r.first, second: r.second, forward: r.forward, reverse: r.reverse }, tracks@)));
                notes = notes.push(OrderNote { kind: OrderNoteKind::Unresolved, first: r.first, second: r.second, forward: r.forward, reverse: r.reverse });
            }
        } else {
            let before = if r.forward >= r.reverse { r.first } else { r.second };
            let after = if r.forward >= r.reverse { r.second } else { r.first };
            let far = match (anchor_index(anchor_order, before), anchor_index(anchor_order, after)) {
                (Some(x), Some(y)) => (if x >= y { x - y } else { y - x }) > 1,
                _ => true,
            };
            if far {
                let message = note_message(tracks, OrderNoteKind::AnchorBarrier, before, after, r.forward, r.reverse);
                if mode == StableOrderMode::Strict {
                    proof {
                        lemma_review_keeps_notes(rels, anchor_order@, k + 1, edges@, notes.push(OrderNote { kind: OrderNoteKind::AnchorBarrier, first: before, second: after, forward: r.forward, reverse: r.reverse }));
                        assert(message@ == note_text(OrderNote { kind: OrderNoteKind::AnchorBarrier, first: before, second: after, forward: r.forward, reverse: r.reverse }, tracks@));
                        assert(notes.push(OrderNote { kind: OrderNoteKind::AnchorBarrier, first: before, second: after, forward: r.forward, reverse: r.reverse })[0] == OrderNote { kind: OrderNoteKind::AnchorBarrier, first: before, second: after, forward: r.forward, reverse: r.reverse });
                    }
                    return Err(message);
                }
                let ghost before_texts = self::scoring::texts(diagnostics@);
                diagnostics.push(message);
                proof {
                    assert(message@ == note_text(OrderNote { kind: OrderNoteKind::AnchorBarrier, first: before, second: after, forward: r.forward, reverse: r.reverse }, tracks@));
                    assert(self::scoring::texts(diagnostics@) =~= before_texts.push(note_text(OrderNote { kind: OrderNoteKind::AnchorBarrier, first: before, second: after, forward: r.forward, reverse: r.reverse }, tracks@)));
                    assert(note_texts(notes.push(OrderNote { kind: OrderNoteKind::AnchorBarrier, first: before, second: after, forward: r.forward, reverse: r.reverse }), tracks@) =~= note_texts(notes, tracks@).push(note_text(OrderNote { kind: OrderNoteKind::AnchorBarrier, first: before, second: after, forward: r.forward, reverse: r.reverse }, tracks@)));
                    notes = notes.push(OrderNote { kind: OrderNoteKind::AnchorBarrier, first: before, second: after, forward: r.forward, reverse: r.reverse });
                }
            } else if would_create_cycle(&edges, before, after) {
                let message = note_message(tracks, OrderNoteKind::Cycle, before, after, r.forward, r.reverse);
                if mode == StableOrderMode::Strict {
                    proof {
                        lemma_review_keeps_notes(rels, anchor_order@, k + 1, edges@, notes.push(OrderNote { kind: OrderNoteKind::Cycle, first: before, second: after, forward: r.forward, reverse: r.reverse }));
                        assert(message@ == note_text(OrderNote { kind: OrderNoteKind::Cycle, first: before, second: after, forward: r.forward, reverse: r.reverse }, tracks@));
                        assert(notes.push(OrderNote { kind: OrderNoteKind::Cycle, first: before, second: after, forward: r.forward, reverse: r.reverse })[0] == OrderNote { kind: OrderNoteKind::Cycle, first: before, second: after, forward: r.forward, reverse: r.reverse });
                    }
                    return Err(message);
                }
                let ghost before_texts = self::scoring::texts(diagnostics@);
                diagnostics.push(message);
                proof {
                    assert(message@ == note_text(OrderNote { kind: OrderNoteKind::Cycle, first: before, second: after, forward: r.forward, reverse: r.reverse }, tracks@));
                    assert(self::scoring::texts(diagnostics@) =~= before_texts.push(note_text(OrderNote { kind: OrderNoteKind::Cycle, first: before, second: after, forward: r.forward, reverse: r.reverse }, tracks@)));
                    assert(note_texts(notes.push(OrderNote { kind: OrderNoteKind::Cycle, first: before, second: after, forward: r.forward, reverse: r.reverse }), tracks@) =~= note_texts(notes, tracks@).push(note_text(OrderNote { kind: OrderNoteKind::Cycle, first: before, second: after, forward: r.forward, reverse: r.reverse }, tracks@)));
                    notes = notes.push(OrderNote { kind: OrderNoteKind::Cycle, first: before, second: after, forward: r.forward, reverse: r.reverse });
                }
            } else {
                edges.push((before, after));
            }
        }
        k = k + 1;
    }
    let mut base: Vec<(usize, i32)> = Vec::new();
    let mut i: usize = 0;
    while i < anchor_order.len()
        invariant
            anchor_order@.len() <= i32::MAX,
            i <= anchor_order@.len(),
            base@ == anchor_base(anchor_order@).take(i as int),
        decreases anchor_order@.len() - i,
    {
        base.push((anchor_order[i], i as i32));
        assert(anchor_base(anchor_order@).take(i as int + 1) == anchor_base(anchor_order@).take(i as int).push((anchor_order@[i as int], i as i32)));
        i = i + 1;
    }
    assert(anchor_base(anchor_order@).take(anchor_order@.len() as int) == anchor_base(anchor_order@));
    let mut ids: Vec<usize> = Vec::new();
    let mut t: usize = 0;
    while t < tracks.len()
        invariant
            t <= tracks@.len(),
            ids@ == track_ids(tracks@.len()).take(t as int),
        decreases tracks@.len() - t,
    {
        ids.push(t);
        assert(track_ids(tracks@.len()).take(t as int + 1) == track_ids(tracks@.len()).take(t as int).push(t));
        t = t + 1;
    }
    assert(track_ids(tracks@.len()).take(tracks@.len() as int) == track_ids(tracks@.len()));
    let order = stable_id_order(&ids, &edges, &base);
    Ok((order, diagnostics))
}

/// The stable order places every waiting track exactly once: it is a permutation of the
/// tracks it orders.
pub proof fn lemma_stable_order_permutes(remaining: Seq<usize>, edges: Seq<(usize, usize)>, base: Seq<(usize, i32)>)
    ensures
        stable_order(remaining, edges, base).to_multiset() == remaining.to_multiset(),
    decreases remaining.len(),
{
    broadcast use vstd::seq_lib::group_to_multiset_ensures;

    if remaining.len() > 0 {
        lemma_some_placeable(remaining, edges);
        lemma_pick_from(remaining, edges, base, 0, None);
        let i = pick_from(remaining, edges, base, 0, None)->0;
        let rest = remaining.remove(i);
        lemma_stable_order_permutes(rest, edges, base);
        vstd::seq_lib::lemma_multiset_commutative(seq![remaining[i]], stable_order(rest, edges, base));
        vstd::seq_lib::to_multiset_remove(remaining, i);
        assert(seq![remaining[i]].to_multiset() == vstd::multiset::Multiset::empty().insert(remaining[i])) by {
            assert(seq![remaining[i]] == Seq::<usize>::empty().push(remaining[i]));
        }
        assert(remaining.to_multiset() == rest.to_multiset().insert(remaining[i]));
    }
}

/// Whether no edge closes a cycle with the edges before it.
pub open spec fn no_edge_closes_cycle(edges: Seq<(usize, usize)>) -> bool {
    forall|i: int| 0 <= i < edges.len() ==> !creates_cycle(edges.take(i), #[trigger] edges[i].0, edges[i].1)
}

/// No order edge accepted by the review closes a cycle: each goes between two different
/// tracks, and its second track does not already reach its first along the edges accepted
/// before it.
pub proof fn lemma_review_edges_acyclic(rels: Seq<OrderSupport>, anchor: Seq<usize>, k: int, edges: Seq<(usize, usize)>, notes: Seq<OrderNote>)
    requires
        no_edge_closes_cycle(edges),
    ensures
        no_edge_closes_cycle(review(rels, anchor, k, edges, notes).0),
    decreases rels.len() - k,
{
    if 0 <= k < rels.len() {
        let r = rels[k];
        let before = if r.forward >= r.reverse { r.first } else { r.second };
        let after = if r.forward >= r.reverse { r.second } else { r.first };
        if !confident(r.forward as int, r.reverse as int) {
            lemma_review_edges_acyclic(rels, anchor, k + 1, edges, notes.push(OrderNote { kind: OrderNoteKind::Unresolved, first: r.first, second: r.second, forward: r.forward, reverse: r.reverse }));
        } else if anchor_far(anchor, before, after) {
            lemma_review_edges_acyclic(rels, anchor, k + 1, edges, notes.push(OrderNote { kind: OrderNoteKind::AnchorBarrier, first: before, second: after, forward: r.forward, reverse: r.reverse }));
        } else if creates_cycle(edges, before, after) {
            lemma_review_edges_acyclic(rels, anchor, k + 1, edges, notes.push(OrderNote { kind: OrderNoteKind::Cycle, first: before, second: after, forward: r.forward, reverse: r.reverse }));
        } else {
            let grown = edges.push((before, after));
            assert forall|i: int| 0 <= i < grown.len() implies !creates_cycle(grown.take(i), #[trigger] grown[i].0, grown[i].1) by {
                assert(no_edge_closes_cycle(edges));
                if i < edges.len() {
                    assert(grown.take(i) == edges.take(i));
                } else {
                    assert(grown.take(i) == edges);
                }
            }
            lemma_review_edges_acyclic(rels, anchor, k + 1, grown, notes);
            assert(review(rels, anchor, k, edges, notes) == review(rels, anchor, k + 1, grown, notes));
        }
    } else {
        assert(review(rels, anchor, k, edges, notes).0 == edges);
    }
}

/// A group that selects frames: the parent it sits under and the frames it is visible in.
#[derive(Debug, Clone, PartialEq, Eq)]
pub struct FrameContainerInfo {
    /// Source ID of the selector group.
    pub id: u32,
    /// Source ID of its parent group, if any.
    pub parent_id: Option<u32>,
    /// Frames in which the group shows a pixel.
    pub active_frames: Vec<usize>,
}

/// The selector entry for group `id`, searching from `from`.
pub open spec fn selector_from(selectors: Seq<FrameContainerInfo>, id: u32, from: int) -> Option<FrameContainerInfo>
    decreases selectors.len() - from,
{
    if from < 0 || from >= selectors.len() {
        None
    } else if selectors[from].id == id {
        Some(selectors[from])
    } else {
        selector_from(selectors, id, from + 1)
    }
}

/// Whether two frame lists share no frame.
pub open spec fn frames_disjoint(left: Seq<usize>, right: Seq<usize>) -> bool {
    forall|i: int, j: int| 0 <= i < left.len() && 0 <= j < right.len() ==> left[i] != right[j]
}

/// Whether two different selector groups under the same parent are never visible in the
/// same frame.
pub open spec fn exclusive_selectors(selectors: Seq<FrameContainerInfo>, left_id: u32, right_id: u32) -> bool {
    left_id != right_id && match (selector_from(selectors, left_id, 0), selector_from(selectors, right_id, 0)) {
        (Some(l), Some(r)) => l.parent_id == r.parent_id && frames_disjoint(l.active_frames@, r.active_frames@),
        _ => false,
    }
}

/// Whether some selector group of the observation and some of the earlier observation are
/// mutually exclusive.
pub open spec fn structurally_exclusive(left: Seq<u32>, right: Seq<u32>, selectors: Seq<FrameContainerInfo>) -> bool {
    exists|i: int, j: int| 0 <= i < left.len() && 0 <= j < right.len() && #[trigger] exclusive_selectors(selectors, left[i], right[j])
}

fn find_selector(selectors: &Vec<FrameContainerInfo>, id: u32) -> (found: Option<usize>)
    ensures
        match found {
            Some(k) => k < selectors@.len() && selector_from(selectors@, id, 0) == Some(selectors@[k as int]),
            None => selector_from(selectors@, id, 0) is None,
        },
{
    let mut k: usize = 0;
    while k < selectors.len()
        invariant
            k <= selectors@.len(),
            selector_from(selectors@, id, 0) == selector_from(selectors@, id, k as int),
        decreases selectors@.len() - k,
    {
        if selectors[k].id == id {
            return Some(k);
        }
        k = k + 1;
    }
    None
}

pub(crate) fn lists_disjoint(left: &Vec<usize>, right: &Vec<usize>) -> (disjoint: bool)
    ensures
        disjoint == frames_disjoint(left@, right@),
{
    let mut i: usize = 0;
    while i < left.len()
        invariant
            i <= left@.len(),
            forall|a: int, c: int| 0 <= a < i && 0 <= c < right@.len() ==> left@[a] != right@[c],
        decreases left@.len() - i,
    {
        let mut j: usize = 0;
        while j < right.len()
            invariant
                i < left@.len(),
                j <= right@.len(),
                forall|a: int, c: int| 0 <= a < i && 0 <= c < right@.len() ==> left@[a] != right@[c],
                forall|c: int| 0 <= c < j ==> left@[i as int] != right@[c],
            decreases right@.len() - j,
        {
            if left[i] == right[j] {
                return false;
            }
            j = j + 1;
        }
        i = i + 1;
    }
    true
}

fn selectors_exclusive(selectors: &Vec<FrameContainerInfo>, left_id: u32, right_id: u32) -> (exclusive: bool)
    ensures
        exclusive == exclusive_selectors(selectors@, left_id, right_id),
{
    if left_id == right_id {
        return false;
    }
    match (find_selector(selectors, left_id), find_selector(selectors, right_id)) {
        (Some(l), Some(r)) => selectors[l].parent_id == selectors[r].parent_id && lists_disjoint(&selectors[l].active_frames, &selectors[r].active_frames),
        _ => false,
    }
}

/// Whether an observation and an earlier observation of a track sit in frame-selector
/// groups that are never visible together.
pub fn structurally_mutually_exclusive(observation: &Observation, previous: &ObservationSummary, selectors: &Vec<FrameContainerInfo>) -> (exclusive: bool)
    ensures
        exclusive == structurally_exclusive(observation.frame_container_ids@, previous.frame_container_ids@, selectors@),
{
    let left = &observation.frame_container_ids;
    let right = &previous.frame_container_ids;
    let mut i: usize = 0;
    while i < left.len()
        invariant
            i <= left@.len(),
            left@ == observation.frame_container_ids@,
            right@ == previous.frame_container_ids@,
            forall|a: int, c: int| 0 <= a < i && 0 <= c < right@.len() ==> !#[trigger] exclusive_selectors(selectors@, left@[a], right@[c]),
        decreases left@.len() - i,
    {
        let mut j: usize = 0;
        while j < right.len()
            invariant
                i < left@.len(),
                j <= right@.len(),
                left@ == observation.frame_container_ids@,
                right@ == previous.frame_container_ids@,
                forall|a: int, c: int| 0 <= a < i && 0 <= c < right@.len() ==> !#[trigger] exclusive_selectors(selectors@, left@[a], right@[c]),
                forall|c: int| 0 <= c < j ==> !#[trigger] exclusive_selectors(selectors@, left@[i as int], right@[c]),
            decreases right@.len() - j,
        {
            if selectors_exclusive(selectors, left[i], right[j]) {
                assert(exclusive_selectors(selectors@, left@[i as int], right@[j as int]));
                return true;
            }
            j = j + 1;
        }
        i = i + 1;
    }
    false
}

/// The strongest exclusion relation between an observation and the earlier observations of
/// a track, in track order: the first earlier observation of the same frame makes them
/// co-visible, the first that sits in an exclusive selector group makes them structurally
/// exclusive; otherwise a track with earlier observations is observed disjoint.
pub open spec fn exclusion_from(observation: Observation, previous: Seq<ObservationSummary>, selectors: Seq<FrameContainerInfo>, k: int) -> AssociationExclusionKind
    decreases previous.len() - k,
{
    if k < 0 || k >= previous.len() {
        if previous.len() > 0 { AssociationExclusionKind::ObservedDisjoint } else { AssociationExclusionKind::NoRelation }
    } else if previous[k].frame_index == observation.frame_index {
        AssociationExclusionKind::CoVisible
    } else if structurally_exclusive(observation.frame_container_ids@, previous[k].frame_container_ids@, selectors) {
        AssociationExclusionKind::StructuralMutualExclusion
    } else {
        exclusion_from(observation, previous, selectors, k + 1)
    }
}

/// Classifies the exclusion relation between an observation and a track.
pub fn exclusion_evidence(observation: &Observation, track: &TrackBuilder, selectors: &Vec<FrameContainerInfo>) -> (kind: AssociationExclusionKind)
    ensures
        kind == exclusion_from(*observation, track.observations@, selectors@, 0),
{
    let observed_disjoint = track.observations.len() > 0;
    let mut k: usize = 0;
    while k < track.observations.len()
        invariant
            k <= track.observations@.len(),
            observed_disjoint == (track.observations@.len() > 0),
            exclusion_from(*observation, track.observations@, selectors@, 0) == exclusion_from(*observation, track.observations@, selectors@, k as int),
        decreases track.observations@.len() - k,
    {
        let previous = &track.observations[k];
        if previous.frame_index == observation.frame_index {
            return AssociationExclusionKind::CoVisible;
        }
        if structurally_mutually_exclusive(observation, previous, selectors) {
            return AssociationExclusionKind::StructuralMutualExclusion;
        }
        k = k + 1;
    }
    if observed_disjoint {
        AssociationExclusionKind::ObservedDisjoint
    } else {
        AssociationExclusionKind::NoRelation
    }
}

} // verus!
