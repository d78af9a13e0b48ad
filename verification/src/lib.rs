//! Fuzzy identification of license texts: a catalog of known texts is
//! fingerprinted, and an unknown text is ranked against it by similarity.
//! Two backends share one contract: a scan over piecewise hashes and a
//! banded index of MinHash signatures. A pipeline rewrites a text round by
//! round until a backend is confident enough, and pipes adjust a score by
//! hand.

pub mod similarity;
pub mod custom_fuzzy;
pub mod patterns;
pub mod persistence;
pub mod ordering;
pub mod ranking;
pub mod detecting;
pub mod license_tools;
pub mod normalization;
pub mod hashing;
pub mod pipeline_tools;

pub use crate::detecting::fuzzy_implementation::FuzzyDetection;
pub use crate::detecting::gaoya_implementation::GaoyaDetection;
pub use crate::detecting::{
    DetectionError, DiskData, LicenseEntry, LicenseListActions, LicenseMatch,
};
pub use crate::normalization::{
    Canonical, FnNormalization, Normalization, StripLicense, Verbatim,
};
pub use crate::license_tools::{
    strip_license, strip_spdx_heading, ComputedLicense, ComputedLicenseList, RawLicense,
};
pub use crate::pipeline_tools::adjustment::{
    PipeLineAction, PipelineActionType, PipelineTriggerCondition, PipelineTriggerInstruction,
};
pub use crate::pipeline_tools::{Pipeline, Segment, Using};
