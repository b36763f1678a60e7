//! Conversion options, the decisions taken before a conversion writes anything, and the
//! report assembled after it.
use vstd::prelude::*;

use crate::aseprite_writer::{fnv1a, fnv1a_hash, CelReuseReport, EncodedAseprite};
use crate::error::ConversionError;
use crate::logical_layers::{AssociationReport, LayerAssociationMode};
use std::path::PathBuf;

verus! {

/// Selects whether identical cels are emitted as links to an earlier cel.
#[derive(Debug, Clone, Copy, Default, PartialEq, Eq, Structural)]
pub enum LinkedCelMode {
    /// Store every visible cel with its own pixel data.
    #[default]
    Off,
    /// Link exact RGBA/size matches within each output layer.
    Identical,
}

/// Options controlling a conversion transaction.
#[derive(Debug, Clone, Default, PartialEq, Eq)]
pub struct ConvertOptions {
    /// Allow replacing an existing output path after successful validation.
    pub overwrite: bool,
    /// Selects source-preserving output or automatic layer association.
    pub layer_association: LayerAssociationMode,
    /// Selects whether identical pixel cels may share Aseprite storage.
    pub linked_cels: LinkedCelMode,
}

/// Summary produced after a conversion has committed its output.
#[derive(Debug)]
pub struct ConversionReport {
    /// The source PSD path supplied by the caller.
    pub input: PathBuf,
    /// The output path supplied by the caller.
    pub output: PathBuf,
    /// Warnings produced while mapping or validating the document.
    pub warnings: Vec<String>,
    /// Automatic layer-association diagnostics, when auto mode was selected.
    pub association: Option<AssociationReport>,
    /// Counts of ordinary and linked cels in the committed output.
    pub cel_reuse: CelReuseReport,
}

/// Decides whether a conversion may start: the input must be a regular file, and an
/// existing output may only be replaced when the options allow it.
pub fn check_conversion_paths(input: PathBuf, output: PathBuf, input_is_file: bool, output_exists: bool, options: &ConvertOptions) -> (checked: Result<(PathBuf, PathBuf), ConversionError>)
    ensures
        !input_is_file ==> checked == Err::<(PathBuf, PathBuf), ConversionError>(ConversionError::InputMissing(input)),
        input_is_file && output_exists && !options.overwrite ==> checked == Err::<(PathBuf, PathBuf), ConversionError>(ConversionError::OutputExists(output)),
        input_is_file && (!output_exists || options.overwrite) ==> checked == Ok::<(PathBuf, PathBuf), ConversionError>((input, output)),
{
    if !input_is_file {
        return Err(ConversionError::InputMissing(input));
    }
    if output_exists && !options.overwrite {
        return Err(ConversionError::OutputExists(output));
    }
    Ok((input, output))
}

/// The warning that states the provisional coordinate policy.
pub open spec fn coordinate_policy() -> Seq<char> {
    "coordinate policy: provisional pixels.left/top plus frame offset cel origin"@
}

/// Assembles the report of a committed conversion: the coordinate-policy warning comes
/// first, then the serializer's warnings.
pub fn conversion_report(input: PathBuf, output: PathBuf, encoded: EncodedAseprite, association: Option<AssociationReport>) -> (report: ConversionReport)
    ensures
        report.input == input,
        report.output == output,
        report.warnings@.len() == encoded.warnings@.len() + 1,
        report.warnings@[0]@ == coordinate_policy(),
        report.warnings@.skip(1) == encoded.warnings@,
        report.association == association,
        report.cel_reuse == encoded.cel_reuse,
{
    let mut warnings = encoded.warnings;
    let ghost before = warnings@;
    warnings.insert(0, "coordinate policy: provisional pixels.left/top plus frame offset cel origin".to_owned());
    assert(warnings@.skip(1) =~= before);
    ConversionReport { input, output, warnings, association, cel_reuse: encoded.cel_reuse }
}

/// A cel with its own pixel data that a later identical cel on the same layer may link to.
#[derive(Debug, Clone, PartialEq, Eq)]
pub struct ReusableCel {
    /// The frame that holds the pixels.
    pub source_frame: usize,
    /// Pixel width.
    pub width: u16,
    /// Pixel height.
    pub height: u16,
    /// FNV-1a hash of the pixels.
    pub hash: u64,
    /// RGBA8 pixels.
    pub rgba: Vec<u8>,
}

/// Tracks reusable ordinary cels independently for one output layer.
#[derive(Debug)]
pub struct CelReuseTracker {
    /// Whether identical cels are linked.
    pub mode: LinkedCelMode,
    /// The ordinary cels written so far, in order.
    pub sources: Vec<ReusableCel>,
    /// Counts of ordinary and linked cels.
    pub report: CelReuseReport,
}

/// Whether a source cel has the given size and pixels.
pub open spec fn same_cel(source: ReusableCel, width: u16, height: u16, rgba: Seq<u8>) -> bool {
    source.width == width && source.height == height && source.rgba@ == rgba
}

/// Whether every source cel carries the hash of its own pixels.
pub open spec fn sources_hashed(sources: Seq<ReusableCel>) -> bool {
    forall|s: int| 0 <= s < sources.len() ==> (#[trigger] sources[s]).hash == fnv1a_hash(sources[s].rgba@, sources[s].rgba@.len() as int)
}

fn bytes_match(left: &Vec<u8>, right: &[u8]) -> (equal: bool)
    ensures
        equal == (left@ == right@),
{
    if left.len() != right.len() {
        return false;
    }
    let mut i: usize = 0;
    while i < left.len()
        invariant
            left@.len() == right@.len(),
            i <= left@.len(),
            forall|j: int| 0 <= j < i ==> left@[j] == right@[j],
        decreases left@.len() - i,
    {
        if left[i] != right[i] {
            return false;
        }
        i = i + 1;
    }
    assert(left@ =~= right@);
    true
}

impl CelReuseTracker {
    /// Creates an empty tracker for one output layer.
    pub fn new(mode: LinkedCelMode) -> (tracker: Self)
        ensures
            tracker.mode == mode,
            tracker.sources@.len() == 0,
            sources_hashed(tracker.sources@),
            tracker.report.pixel_cel_count == 0,
            tracker.report.linked_cel_count == 0,
    {
        CelReuseTracker { mode, sources: Vec::new(), report: CelReuseReport::default() }
    }

    /// The frame of the first earlier ordinary cel with the same size and pixels, when
    /// identical cels are linked.
    pub fn find_source(&self, width: u16, height: u16, rgba: &[u8]) -> (found: Option<usize>)
        requires
            sources_hashed(self.sources@),
        ensures
            self.mode == LinkedCelMode::Off ==> found is None,
            self.mode == LinkedCelMode::Identical ==> match found {
                Some(frame) => exists|i: int| {
                    &&& 0 <= i < self.sources@.len()
                    &&& #[trigger] same_cel(self.sources@[i], width, height, rgba@)
                    &&& self.sources@[i].source_frame == frame
                    &&& forall|k: int| 0 <= k < i ==> !same_cel(#[trigger] self.sources@[k], width, height, rgba@)
                },
                None => forall|i: int| 0 <= i < self.sources@.len() ==> !same_cel(#[trigger] self.sources@[i], width, height, rgba@),
            },
    {
        if self.mode == LinkedCelMode::Off {
            return None;
        }
        let hash = fnv1a(rgba);
        let mut i: usize = 0;
        while i < self.sources.len()
            invariant
                i <= self.sources@.len(),
                self.mode != LinkedCelMode::Off,
                hash == fnv1a_hash(rgba@, rgba@.len() as int),
                sources_hashed(self.sources@),
                forall|k: int| 0 <= k < i ==> !same_cel(#[trigger] self.sources@[k], width, height, rgba@),
            decreases self.sources@.len() - i,
        {
            let source = &self.sources[i];
            assert(source.hash == fnv1a_hash(source.rgba@, source.rgba@.len() as int));
            if source.width == width && source.height == height && source.hash == hash && bytes_match(&source.rgba, rgba) {
                assert(same_cel(self.sources@[i as int], width, height, rgba@));
                return Some(source.source_frame);
            }
            i = i + 1;
        }
        None
    }

    /// Counts one cel linked to an earlier one.
    pub fn record_link(&mut self)
        requires
            old(self).report.linked_cel_count < usize::MAX,
        ensures
            final(self).report.linked_cel_count == old(self).report.linked_cel_count + 1,
            final(self).report.pixel_cel_count == old(self).report.pixel_cel_count,
            final(self).sources@ == old(self).sources@,
            final(self).mode == old(self).mode,
    {
        self.report.linked_cel_count = self.report.linked_cel_count + 1;
    }

    /// Counts one cel written with its own pixels and, when identical cels are linked,
    /// keeps it as a source for later cels.
    pub fn record_pixel_cel(&mut self, frame: usize, width: u16, height: u16, rgba: Vec<u8>)
        requires
            old(self).report.pixel_cel_count < usize::MAX,
            sources_hashed(old(self).sources@),
        ensures
            final(self).report.pixel_cel_count == old(self).report.pixel_cel_count + 1,
            final(self).report.linked_cel_count == old(self).report.linked_cel_count,
            final(self).mode == old(self).mode,
            sources_hashed(final(self).sources@),
            old(self).mode == LinkedCelMode::Off ==> final(self).sources@ == old(self).sources@,
            old(self).mode == LinkedCelMode::Identical ==> {
                &&& final(self).sources@.len() == old(self).sources@.len() + 1
                &&& final(self).sources@.drop_last() == old(self).sources@
                &&& final(self).sources@.last().source_frame == frame
                &&& same_cel(final(self).sources@.last(), width, height, rgba@)
            },
    {
        self.report.pixel_cel_count = self.report.pixel_cel_count + 1;
        if self.mode == LinkedCelMode::Identical {
            let hash = fnv1a(rgba.as_slice());
            let ghost before = self.sources@;
            self.sources.push(ReusableCel { source_frame: frame, width, height, hash, rgba });
            assert(self.sources@.drop_last() == before);
        }
    }

    /// Decides how the cel of `frame` is stored: as a link to the first earlier ordinary cel
    /// with the same size and pixels when identical cels are linked, else as an ordinary cel
    /// whose stored pixels `stored` become a source for later cels. Returns the frame of the
    /// linked source, `None` for an ordinary cel.
    pub fn emit_cel(&mut self, frame: usize, width: u16, height: u16, rgba: &[u8], stored: Vec<u8>) -> (linked: Option<usize>)
        requires
            old(self).report.pixel_cel_count < usize::MAX,
            old(self).report.linked_cel_count < usize::MAX,
            sources_hashed(old(self).sources@),
        ensures
            final(self).mode == old(self).mode,
            sources_hashed(final(self).sources@),
            match linked {
                Some(source_frame) => {
                    &&& old(self).mode == LinkedCelMode::Identical
                    &&& exists|i: int| {
                        &&& 0 <= i < old(self).sources@.len()
                        &&& #[trigger] same_cel(old(self).sources@[i], width, height, rgba@)
                        &&& old(self).sources@[i].source_frame == source_frame
                        &&& forall|k: int| 0 <= k < i ==> !same_cel(#[trigger] old(self).sources@[k], width, height, rgba@)
                    }
                    &&& final(self).sources@ == old(self).sources@
                    &&& final(self).report.linked_cel_count == old(self).report.linked_cel_count + 1
                    &&& final(self).report.pixel_cel_count == old(self).report.pixel_cel_count
                },
                None => {
                    &&& (old(self).mode == LinkedCelMode::Identical ==> forall|i: int| 0 <= i < old(self).sources@.len()
                        ==> !same_cel(#[trigger] old(self).sources@[i], width, height, rgba@))
                    &&& final(self).report.pixel_cel_count == old(self).report.pixel_cel_count + 1
                    &&& final(self).report.linked_cel_count == old(self).report.linked_cel_count
                    &&& (old(self).mode == LinkedCelMode::Off ==> final(self).sources@ == old(self).sources@)
                    &&& (old(self).mode == LinkedCelMode::Identical ==> {
                        &&& final(self).sources@.drop_last() == old(self).sources@
                        &&& final(self).sources@.last().source_frame == frame
                        &&& same_cel(final(self).sources@.last(), width, height, stored@)
                    })
                },
            },
    {
        match self.find_source(width, height, rgba) {
            Some(source_frame) => {
                self.record_link();
                Some(source_frame)
            },
            None => {
                self.record_pixel_cel(frame, width, height, stored);
                None
            },
        }
    }
}

} // verus!
