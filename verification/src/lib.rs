//! Verified core of the PSD to Aseprite conversion library.
use vstd::prelude::*;

pub mod animation_inputs;
pub mod animation_resource;
pub mod aseprite_encoder;
pub mod aseprite_export;
pub mod aseprite_file;
pub mod aseprite_timeline;
pub mod aseprite_writer;
pub mod audit;
pub mod conversion;
pub mod error;
pub mod information_loss;
pub mod logical_layers;
pub mod model;
pub mod photoshop_animation;
pub mod roundtrip;
pub mod structure_audit;
pub mod text;

pub use error::{ConversionError, ExportError, InspectionError};
pub use information_loss::{
    InformationLocation, InformationLoss, InformationLossCode, InformationLossReport,
    LossDisposition,
};
pub use logical_layers::write_plan::{LayerWritePlan, PlannedNode};
pub use logical_layers::{
    AssociationDecision, AssociationDecisionStatus, AssociationExclusionKind, AssociationPhase,
    AssociationReport, LayerAssociationMode, LayerZOrderMode, LogicalLayerTrack, PlannedCel,
    StableOrderMode,
};
pub use model::{
    DocumentInspection, NormalizedDocument, NormalizedLayer, NormalizedBounds, NormalizedFrame, NormalizedLayerKind,
    NormalizedLoopMode, NormalizedPixels,
};
pub use photoshop_animation::{
    AnimationFlags, AnimationLayerInput, AnimationParseError, LoopMode, PhotoshopFrame,
    VisibleFrameLayers,
};
pub use roundtrip::RoundTripStatus;

verus! {

} // verus!
