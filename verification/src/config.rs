//! Configuration model: the validated set of input parameters of one
//! inference pass. The record is built once, from an externally supplied
//! serialized buffer whose decoding happens at the process boundary, and
//! is never mutated afterwards.
//!
//! Thresholds are fixed-point values in units of 1/10000 (10000 stands
//! for 1.0, certainty); the paths are carried as given and are resolved
//! only by the sandboxed file layer at the point of use.

use vstd::prelude::*;

verus! {

/// The parameters of one detection pass.
pub struct DarknetInferenceService {
    /// Path of the input image fed to the network.
    pub input_path: String,
    /// Path of the model's topology configuration.
    pub cfg_path: String,
    /// Path of the model weights.
    pub model_path: String,
    /// Path of the labels file, one label per line.
    pub labels_path: String,
    /// Path of the output file receiving the rendered result.
    pub output_path: String,
    /// Threshold above which a box is considered to hold an object.
    pub objectness_threshold: u32,
    /// Threshold a class probability must reach for the detection to be
    /// attributed to that class.
    pub class_threshold: u32,
    /// Threshold for models with a hierarchised label structure; passed
    /// through to the engine unconditionally.
    pub hierarchical_threshold: u32,
    /// Intersection-over-union threshold of the engine's overlap
    /// suppression.
    pub iou_threshold: u32,
    /// Whether the image is letterboxed (padded, keeping its aspect
    /// ratio) rather than resized before being fed to the model.
    pub letterbox: bool,
}

impl DarknetInferenceService {
    /// A new service description with empty paths, zero thresholds, and
    /// letterboxing on.
    pub fn new() -> (r: Self)
        ensures
            r.input_path@ == Seq::<char>::empty(),
            r.cfg_path@ == Seq::<char>::empty(),
            r.model_path@ == Seq::<char>::empty(),
            r.labels_path@ == Seq::<char>::empty(),
            r.output_path@ == Seq::<char>::empty(),
            r.objectness_threshold == 0,
            r.class_threshold == 0,
            r.hierarchical_threshold == 0,
            r.iou_threshold == 0,
            r.letterbox == true,
    {
        DarknetInferenceService {
            input_path: String::new(),
            cfg_path: String::new(),
            model_path: String::new(),
            labels_path: String::new(),
            output_path: String::new(),
            objectness_threshold: 0,
            class_threshold: 0,
            hierarchical_threshold: 0,
            iou_threshold: 0,
            letterbox: true,
        }
    }
}

} // verus!
