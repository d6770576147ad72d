//! Model definitions — architecture metadata and class labels.

use vstd::prelude::*;

verus! {

/// Supported model task types.
#[derive(Debug, Clone, Copy, PartialEq, Eq, Structural)]
pub enum TaskType {
    /// Semantic segmentation (per-pixel classification).
    Segmentation,
    /// Object detection (bounding boxes + classes).
    Detection,
    /// Binary classification (single label per tile).
    Classification,
    /// Change detection (compare two inputs).
    ChangeDetection,
}

/// Model input specification.
#[derive(Debug, Clone, Copy, PartialEq, Eq, Structural)]
pub struct InputSpec {
    /// Number of channels expected (e.g., 3 for RGB, 4 for RGBN).
    pub channels: usize,
    /// Expected height in pixels.
    pub height: usize,
    /// Expected width in pixels.
    pub width: usize,
    /// Whether to apply ImageNet normalization.
    pub imagenet_normalize: bool,
}

/// A class definition.
#[derive(Debug, Clone)]
pub struct ClassDef {
    pub id: u8,
    pub name: String,
    pub color: [u8; 3],
}

/// Complete model metadata.
#[derive(Debug, Clone)]
pub struct ModelConfig {
    pub name: String,
    pub version: String,
    pub task: TaskType,
    pub input: InputSpec,
    pub classes: Vec<ClassDef>,
    /// Minimum confidence threshold for predictions: the bit pattern of an IEEE-754
    /// single-precision number (`f32::to_bits`).
    pub confidence_threshold_bits: u32,
    /// Path to the model file (ONNX).
    pub model_path: Option<String>,
}

/// A class definition, as mathematical values.
pub struct ClassDefView {
    pub id: u8,
    pub name: Seq<char>,
    pub color: Seq<u8>,
}

/// Model metadata, as mathematical values.
pub struct ModelConfigView {
    pub name: Seq<char>,
    pub version: Seq<char>,
    pub task: TaskType,
    pub input: InputSpec,
    pub classes: Seq<ClassDefView>,
    pub confidence_threshold_bits: u32,
    pub model_path: Option<Seq<char>>,
}

impl View for ClassDef {
    type V = ClassDefView;

    open spec fn view(&self) -> ClassDefView {
        ClassDefView { id: self.id, name: self.name@, color: self.color@ }
    }
}

impl View for ModelConfig {
    type V = ModelConfigView;

    open spec fn view(&self) -> ModelConfigView {
        ModelConfigView {
            name: self.name@,
            version: self.version@,
            task: self.task,
            input: self.input,
            classes: self.classes@.map_values(|c: ClassDef| c@),
            confidence_threshold_bits: self.confidence_threshold_bits,
            model_path: match self.model_path {
                Some(p) => Some(p@),
                None => None,
            },
        }
    }
}

/// The index of the first class of `classes` whose id is `id`.
pub open spec fn first_class_with_id(classes: Seq<ClassDef>, id: u8, i: int) -> bool {
    &&& 0 <= i < classes.len()
    &&& classes[i].id == id
    &&& forall|j: int| 0 <= j < i ==> #[trigger] classes[j].id != id
}

impl ModelConfig {
    pub fn num_classes(&self) -> (r: usize)
        ensures
            r == self.classes@.len(),
    {
        self.classes.len()
    }

    /// The name of the first class whose id is `id`, if any.
    pub fn class_name(&self, id: u8) -> (r: Option<&str>)
        ensures
            match r {
                Some(name) => exists|i: int|
                    first_class_with_id(self.classes@, id, i) && name@ == #[trigger] self.classes@[i].name@,
                None => forall|i: int| 0 <= i < self.classes@.len() ==> #[trigger] self.classes@[i].id != id,
            },
    {
        let mut i: usize = 0;
        while i < self.classes.len()
            invariant
                i <= self.classes@.len(),
                forall|j: int| 0 <= j < i ==> #[trigger] self.classes@[j].id != id,
            decreases self.classes@.len() - i,
        {
            if self.classes[i].id == id {
                let name = self.classes[i].name.as_str();
                assert(first_class_with_id(self.classes@, id, i as int));
                return Some(name);
            }
            i = i + 1;
        }
        None
    }
}

} // verus!
