//! Structured compatibility losses collected during PSD conversion.
use vstd::prelude::*;

verus! {

/// Stable identifiers for source information that cannot be represented exactly.
#[derive(Debug, Clone, Copy, PartialEq, Eq, Structural, Hash)]
pub enum InformationLossCode {
    UnsupportedColor,
    PixelMask,
    VectorMask,
    Clipping,
    TextLayer,
    AdjustmentLayer,
    LayerEffects,
    SmartObject,
    Slices,
    LayerComps,
    Artboards,
    EmbeddedColorProfile,
    UnknownBlendMode,
    OpacityQuantization,
    ReferencePoint,
    GroupFrameOpacity,
    ActiveFrame,
    PixelLayerChildren,
    CelZIndex,
    EmptyPixelLayer,
    AnimationTagName,
}

/// The stable wire identifier of a loss code.
pub open spec fn loss_code_wire_name(code: InformationLossCode) -> Seq<char> {
    match code {
        InformationLossCode::UnsupportedColor => "unsupported_color"@,
        InformationLossCode::PixelMask => "pixel_mask"@,
        InformationLossCode::VectorMask => "vector_mask"@,
        InformationLossCode::Clipping => "clipping"@,
        InformationLossCode::TextLayer => "text_layer"@,
        InformationLossCode::AdjustmentLayer => "adjustment_layer"@,
        InformationLossCode::LayerEffects => "layer_effects"@,
        InformationLossCode::SmartObject => "smart_object"@,
        InformationLossCode::Slices => "slices"@,
        InformationLossCode::LayerComps => "layer_comps"@,
        InformationLossCode::Artboards => "artboards"@,
        InformationLossCode::EmbeddedColorProfile => "embedded_color_profile"@,
        InformationLossCode::UnknownBlendMode => "unknown_blend_mode"@,
        InformationLossCode::OpacityQuantization => "opacity_quantization"@,
        InformationLossCode::ReferencePoint => "reference_point"@,
        InformationLossCode::GroupFrameOpacity => "group_frame_opacity"@,
        InformationLossCode::ActiveFrame => "active_frame"@,
        InformationLossCode::PixelLayerChildren => "pixel_layer_children"@,
        InformationLossCode::CelZIndex => "cel_z_index"@,
        InformationLossCode::EmptyPixelLayer => "empty_pixel_layer"@,
        InformationLossCode::AnimationTagName => "animation_tag_name"@,
    }
}

/// Distinct loss codes have distinct wire identifiers.
pub proof fn lemma_wire_names_distinct(a: InformationLossCode, b: InformationLossCode)
    requires
        a != b,
    ensures
        loss_code_wire_name(a) != loss_code_wire_name(b),
{
    reveal_strlit("unsupported_color");
    reveal_strlit("pixel_mask");
    reveal_strlit("vector_mask");
    reveal_strlit("clipping");
    reveal_strlit("text_layer");
    reveal_strlit("adjustment_layer");
    reveal_strlit("layer_effects");
    reveal_strlit("smart_object");
    reveal_strlit("slices");
    reveal_strlit("layer_comps");
    reveal_strlit("artboards");
    reveal_strlit("embedded_color_profile");
    reveal_strlit("unknown_blend_mode");
    reveal_strlit("opacity_quantization");
    reveal_strlit("reference_point");
    reveal_strlit("group_frame_opacity");
    reveal_strlit("active_frame");
    reveal_strlit("pixel_layer_children");
    reveal_strlit("cel_z_index");
    reveal_strlit("empty_pixel_layer");
    reveal_strlit("animation_tag_name");
    let x = loss_code_wire_name(a);
    let y = loss_code_wire_name(b);
    if x.len() == y.len() {
        assert(x[0] != y[0]);
    }
}

impl InformationLossCode {
    /// Returns the stable wire identifier used by CLI reports.
    pub fn as_str(self) -> (name: &'static str)
        ensures
            name@ == loss_code_wire_name(self),
    {
        match self {
            InformationLossCode::UnsupportedColor => "unsupported_color",
            InformationLossCode::PixelMask => "pixel_mask",
            InformationLossCode::VectorMask => "vector_mask",
            InformationLossCode::Clipping => "clipping",
            InformationLossCode::TextLayer => "text_layer",
            InformationLossCode::AdjustmentLayer => "adjustment_layer",
            InformationLossCode::LayerEffects => "layer_effects",
            InformationLossCode::SmartObject => "smart_object",
            InformationLossCode::Slices => "slices",
            InformationLossCode::LayerComps => "layer_comps",
            InformationLossCode::Artboards => "artboards",
            InformationLossCode::EmbeddedColorProfile => "embedded_color_profile",
            InformationLossCode::UnknownBlendMode => "unknown_blend_mode",
            InformationLossCode::OpacityQuantization => "opacity_quantization",
            InformationLossCode::ReferencePoint => "reference_point",
            InformationLossCode::GroupFrameOpacity => "group_frame_opacity",
            InformationLossCode::ActiveFrame => "active_frame",
            InformationLossCode::PixelLayerChildren => "pixel_layer_children",
            InformationLossCode::CelZIndex => "cel_z_index",
            InformationLossCode::EmptyPixelLayer => "empty_pixel_layer",
            InformationLossCode::AnimationTagName => "animation_tag_name",
        }
    }
}


/// Describes how a source value was handled by the output mapping.
#[derive(Debug, Clone, Copy, PartialEq, Eq, Structural, Hash)]
pub enum LossDisposition {
    Rasterized,
    Degraded,
    Dropped,
    Unknown,
}

/// The stable wire identifier of a loss disposition.
pub open spec fn disposition_wire_name(disposition: LossDisposition) -> Seq<char> {
    match disposition {
        LossDisposition::Rasterized => "rasterized"@,
        LossDisposition::Degraded => "degraded"@,
        LossDisposition::Dropped => "dropped"@,
        LossDisposition::Unknown => "unknown"@,
    }
}

impl LossDisposition {
    /// Returns the stable wire identifier used by CLI reports.
    pub fn as_str(self) -> (name: &'static str)
        ensures
            name@ == disposition_wire_name(self),
    {
        match self {
            LossDisposition::Rasterized => "rasterized",
            LossDisposition::Degraded => "degraded",
            LossDisposition::Dropped => "dropped",
            LossDisposition::Unknown => "unknown",
        }
    }
}

/// The most source locations retained for one aggregated loss.
pub const MAX_LOSS_LOCATIONS: usize = 8;

/// A source location associated with a loss.
#[derive(Debug, Clone, PartialEq, Eq)]
pub struct InformationLocation {
    pub layer_id: Option<u32>,
    pub path: String,
}

/// One aggregated compatibility loss.
#[derive(Debug, Clone, PartialEq, Eq)]
pub struct InformationLoss {
    pub code: InformationLossCode,
    pub disposition: LossDisposition,
    pub count: usize,
    pub locations: Vec<InformationLocation>,
    pub detail: String,
    pub visual_impact: bool,
    pub editability_impact: bool,
}

/// The single compatibility-loss accumulator shared by reader and writer.
#[derive(Debug, Clone, PartialEq, Eq)]
pub struct InformationLossReport {
    pub entries: Vec<InformationLoss>,
}

/// Whether an aggregated entry is the one for a code and disposition pair.
pub open spec fn entry_has_key(
    entry: InformationLoss,
    code: InformationLossCode,
    disposition: LossDisposition,
) -> bool {
    entry.code == code && entry.disposition == disposition
}

/// The index of the first entry aggregated under a code and disposition, if any.
pub open spec fn first_entry_with_key(
    entries: Seq<InformationLoss>,
    code: InformationLossCode,
    disposition: LossDisposition,
) -> Option<int>
    decreases entries.len(),
{
    if entries.len() == 0 {
        None
    } else {
        match first_entry_with_key(entries.drop_last(), code, disposition) {
            Some(index) => Some(index),
            None => if entry_has_key(entries.last(), code, disposition) {
                Some(entries.len() - 1)
            } else {
                None
            },
        }
    }
}

/// No two entries share a code and disposition pair.
pub open spec fn keys_distinct(entries: Seq<InformationLoss>) -> bool {
    forall|i: int, j: int|
        0 <= i < j < entries.len() ==> !entry_has_key(
            #[trigger] entries[i],
            (#[trigger] entries[j]).code,
            entries[j].disposition,
        )
}

/// A report is well formed when every code and disposition pair is aggregated into at
/// most one entry, every entry counts at least one occurrence and retains between one
/// and eight of its locations, never more than it counted.
pub open spec fn report_well_formed(entries: Seq<InformationLoss>) -> bool {
    &&& keys_distinct(entries)
    &&& forall|i: int|
        0 <= i < entries.len() ==> {
            &&& 1 <= (#[trigger] entries[i]).locations.len() <= MAX_LOSS_LOCATIONS
            &&& entries[i].locations.len() <= entries[i].count
        }
}

impl Default for InformationLossReport {
    /// An empty report.
    fn default() -> (report: Self)
        ensures
            report.entries@.len() == 0,
    {
        InformationLossReport { entries: Vec::new() }
    }
}

impl InformationLossReport {
    /// Creates an empty report.
    pub fn new() -> (report: Self)
        ensures
            report.entries@.len() == 0,
    {
        InformationLossReport { entries: Vec::new() }
    }

    /// Adds one occurrence, aggregating by stable code and disposition.
    pub fn add(
        &mut self,
        code: InformationLossCode,
        disposition: LossDisposition,
        location: InformationLocation,
        detail: &str,
        visual_impact: bool,
        editability_impact: bool,
    )
        requires
            first_entry_with_key(old(self).entries@, code, disposition) matches Some(index)
                ==> old(self).entries@[index].count < usize::MAX,
        ensures
            match first_entry_with_key(old(self).entries@, code, disposition) {
                Some(index) => {
                    let previous = old(self).entries@[index];
                    let updated = final(self).entries@[index];
                    &&& final(self).entries@.len() == old(self).entries@.len()
                    &&& forall|other: int|
                        0 <= other < old(self).entries@.len() && other != index
                            ==> final(self).entries@[other] == old(self).entries@[other]
                    &&& updated.code == previous.code
                    &&& updated.disposition == previous.disposition
                    &&& updated.count == previous.count + 1
                    &&& updated.detail == previous.detail
                    &&& updated.visual_impact == previous.visual_impact
                    &&& updated.editability_impact == previous.editability_impact
                    &&& updated.locations@ == if previous.locations@.len() < MAX_LOSS_LOCATIONS {
                        previous.locations@.push(location)
                    } else {
                        previous.locations@
                    }
                },
                None => {
                    let added = final(self).entries@.last();
                    &&& final(self).entries@.len() == old(self).entries@.len() + 1
                    &&& final(self).entries@.drop_last() == old(self).entries@
                    &&& added.code == code
                    &&& added.disposition == disposition
                    &&& added.count == 1
                    &&& added.locations@ == seq![location]
                    &&& added.detail@ == detail@
                    &&& added.visual_impact == visual_impact
                    &&& added.editability_impact == editability_impact
                },
            },
            report_well_formed(old(self).entries@) ==> report_well_formed(final(self).entries@),
            final(self).entries@.len() == old(self).entries@.len()
                + (if first_entry_with_key(old(self).entries@, code, disposition) is Some { 0int } else { 1int }),
            keys_distinct(old(self).entries@) ==> keys_distinct(final(self).entries@),
            keys_distinct(old(self).entries@) ==> exists|i: int|
                0 <= i < final(self).entries@.len() && entry_has_key(final(self).entries@[i], code, disposition)
                && forall|j: int| 0 <= j < final(self).entries@.len()
                    && entry_has_key(#[trigger] final(self).entries@[j], code, disposition) ==> j == i,
    {
        let mut index: usize = 0;
        while index < self.entries.len()
            invariant
                index <= self.entries@.len(),
                self.entries@ == old(self).entries@,
                first_entry_with_key(old(self).entries@, code, disposition) matches Some(found)
                    ==> old(self).entries@[found].count < usize::MAX,
                first_entry_with_key(self.entries@.take(index as int), code, disposition) is None,
            decreases self.entries@.len() - index,
        {
            assert(self.entries@.take(index as int + 1).drop_last() == self.entries@.take(
                index as int,
            ));
            if self.entries[index].code == code && self.entries[index].disposition == disposition {
                proof {
                    lemma_first_entry_in_prefix(self.entries@, index as int, code, disposition);
                }
                let mut entry = self.entries.remove(index);
                entry.count = entry.count + 1;
                if entry.locations.len() < MAX_LOSS_LOCATIONS {
                    entry.locations.push(location);
                }
                self.entries.insert(index, entry);
                proof {
                    assert forall|other: int|
                        0 <= other < old(self).entries@.len() && other != index implies
                        self.entries@[other] == old(self).entries@[other] by {
                        if other > index {
                            assert(self.entries@[other] == old(self).entries@[other]);
                        }
                    }
                    let key_index = index as int;
                    assert(entry_has_key(self.entries@[key_index], code, disposition));
                    if keys_distinct(old(self).entries@) {
                        assert forall|j: int| 0 <= j < self.entries@.len()
                            && entry_has_key(#[trigger] self.entries@[j], code, disposition) implies j == key_index by {
                            if j != key_index {
                                assert(self.entries@[j] == old(self).entries@[j]);
                                assert(entry_has_key(old(self).entries@[key_index], code, disposition));
                                if j < key_index {
                                    assert(!entry_has_key(old(self).entries@[j], old(self).entries@[key_index].code, old(self).entries@[key_index].disposition));
                                } else {
                                    assert(!entry_has_key(old(self).entries@[key_index], old(self).entries@[j].code, old(self).entries@[j].disposition));
                                }
                            }
                        }
                    }
                }
                return;
            }
            index = index + 1;
        }
        assert(self.entries@.take(index as int) == self.entries@);
        proof {
            lemma_no_entry_with_key(self.entries@, code, disposition);
        }
        let mut locations = Vec::new();
        locations.push(location);
        let detail_text = detail.to_string();
        proof {
            vstd::string::to_string_from_display_ensures_for_str(detail, detail_text);
        }
        self.entries.push(
            InformationLoss {
                code,
                disposition,
                count: 1,
                locations,
                detail: detail_text,
                visual_impact,
                editability_impact,
            },
        );
        assert(self.entries@.drop_last() == old(self).entries@);
        proof {
            let last = self.entries@.len() - 1;
            assert forall|j: int| 0 <= j < self.entries@.len()
                && entry_has_key(#[trigger] self.entries@[j], code, disposition) implies j == last by {
                if j < last {
                    assert(self.entries@[j] == old(self).entries@[j]);
                }
            }
            assert(entry_has_key(self.entries@[last], code, disposition));
        }
    }

    /// Returns whether at least one loss was recorded.
    pub fn is_empty(&self) -> (recorded: bool)
        ensures
            recorded == (self.entries@.len() > 0),
    {
        self.entries.len() > 0
    }
}

/// A sequence with no first matching entry has no matching entry at all.
proof fn lemma_no_entry_with_key(
    entries: Seq<InformationLoss>,
    code: InformationLossCode,
    disposition: LossDisposition,
)
    requires
        first_entry_with_key(entries, code, disposition) is None,
    ensures
        forall|i: int| 0 <= i < entries.len() ==> !entry_has_key(#[trigger] entries[i], code, disposition),
    decreases entries.len(),
{
    if entries.len() > 0 {
        lemma_no_entry_with_key(entries.drop_last(), code, disposition);
        assert forall|i: int| 0 <= i < entries.len() implies !entry_has_key(#[trigger] entries[i], code, disposition) by {
            if i < entries.len() - 1 {
                assert(entries[i] == entries.drop_last()[i]);
            }
        }
    }
}

/// The first matching entry of a sequence whose proper prefix has none is the entry found.
proof fn lemma_first_entry_in_prefix(
    entries: Seq<InformationLoss>,
    index: int,
    code: InformationLossCode,
    disposition: LossDisposition,
)
    requires
        0 <= index < entries.len(),
        first_entry_with_key(entries.take(index), code, disposition) is None,
        entry_has_key(entries[index], code, disposition),
    ensures
        first_entry_with_key(entries, code, disposition) == Some(index),
    decreases entries.len(),
{
    if index == entries.len() - 1 {
        assert(entries.drop_last() == entries.take(index));
    } else {
        assert(entries.drop_last().take(index) == entries.take(index));
        lemma_first_entry_in_prefix(entries.drop_last(), index, code, disposition);
    }
}

} // verus!
