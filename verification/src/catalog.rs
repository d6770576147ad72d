//! Model catalog — pre-defined model configurations for common tasks.

use vstd::prelude::*;
use crate::model::{ClassDef, ClassDefView, InputSpec, ModelConfig, ModelConfigView, TaskType, first_class_with_id};

verus! {

broadcast use vstd::string::to_string_from_display_ensures_for_str;

/// The `panoptes-buildings-v1` configuration: threshold 0.5.
pub open spec fn spec_building_segmentation() -> ModelConfigView {
    ModelConfigView {
        name: "panoptes-buildings-v1"@,
        version: "1.0.0"@,
        task: TaskType::Segmentation,
        input: InputSpec { width: 512, height: 512, channels: 3, imagenet_normalize: true },
        classes: seq![
            ClassDefView { id: 0, name: "background"@, color: seq![0u8, 0u8, 0u8] },
            ClassDefView { id: 1, name: "building"@, color: seq![255u8, 0u8, 0u8] },
        ],
        confidence_threshold_bits: 0x3f00_0000,
        model_path: None,
    }
}

/// The `panoptes-roads-v1` configuration: threshold 0.4.
pub open spec fn spec_road_segmentation() -> ModelConfigView {
    ModelConfigView {
        name: "panoptes-roads-v1"@,
        version: "1.0.0"@,
        task: TaskType::Segmentation,
        input: InputSpec { width: 512, height: 512, channels: 3, imagenet_normalize: true },
        classes: seq![
            ClassDefView { id: 0, name: "background"@, color: seq![0u8, 0u8, 0u8] },
            ClassDefView { id: 1, name: "road"@, color: seq![255u8, 255u8, 0u8] },
        ],
        confidence_threshold_bits: 0x3ecc_cccd,
        model_path: None,
    }
}

/// The `panoptes-landcover-v1` configuration: threshold 0.3.
pub open spec fn spec_land_cover_classification() -> ModelConfigView {
    ModelConfigView {
        name: "panoptes-landcover-v1"@,
        version: "1.0.0"@,
        task: TaskType::Segmentation,
        input: InputSpec { width: 256, height: 256, channels: 3, imagenet_normalize: true },
        classes: seq![
            ClassDefView { id: 0, name: "water"@, color: seq![0u8, 0u8, 255u8] },
            ClassDefView { id: 1, name: "vegetation"@, color: seq![0u8, 255u8, 0u8] },
            ClassDefView { id: 2, name: "bare_soil"@, color: seq![139u8, 69u8, 19u8] },
            ClassDefView { id: 3, name: "built_up"@, color: seq![128u8, 128u8, 128u8] },
            ClassDefView { id: 4, name: "agriculture"@, color: seq![255u8, 255u8, 0u8] },
        ],
        confidence_threshold_bits: 0x3e99_999a,
        model_path: None,
    }
}

/// The `panoptes-vegetation-v1` configuration: threshold 0.4.
pub open spec fn spec_vegetation_detection() -> ModelConfigView {
    ModelConfigView {
        name: "panoptes-vegetation-v1"@,
        version: "1.0.0"@,
        task: TaskType::Segmentation,
        input: InputSpec { width: 512, height: 512, channels: 3, imagenet_normalize: true },
        classes: seq![
            ClassDefView { id: 0, name: "non_vegetation"@, color: seq![128u8, 128u8, 128u8] },
            ClassDefView { id: 1, name: "trees"@, color: seq![0u8, 128u8, 0u8] },
            ClassDefView { id: 2, name: "shrubs"@, color: seq![0u8, 255u8, 0u8] },
            ClassDefView { id: 3, name: "grass"@, color: seq![144u8, 238u8, 144u8] },
        ],
        confidence_threshold_bits: 0x3ecc_cccd,
        model_path: None,
    }
}

/// The `panoptes-change-v1` configuration: threshold 0.5.
pub open spec fn spec_change_detection() -> ModelConfigView {
    ModelConfigView {
        name: "panoptes-change-v1"@,
        version: "1.0.0"@,
        task: TaskType::ChangeDetection,
        input: InputSpec { width: 256, height: 256, channels: 6, imagenet_normalize: true },
        classes: seq![
            ClassDefView { id: 0, name: "no_change"@, color: seq![0u8, 0u8, 0u8] },
            ClassDefView { id: 1, name: "change"@, color: seq![255u8, 0u8, 255u8] },
        ],
        confidence_threshold_bits: 0x3f00_0000,
        model_path: None,
    }
}

/// Create a building segmentation model configuration.
pub fn building_segmentation() -> (r: ModelConfig)
    ensures
        r@ == spec_building_segmentation(),
{
    let mut classes = Vec::new();
    classes.push(ClassDef { id: 0, name: "background".to_string(), color: [0, 0, 0] });
    classes.push(ClassDef { id: 1, name: "building".to_string(), color: [255, 0, 0] });
    let r = ModelConfig {
        name: "panoptes-buildings-v1".to_string(),
        version: "1.0.0".to_string(),
        task: TaskType::Segmentation,
        input: InputSpec { width: 512, height: 512, channels: 3, imagenet_normalize: true },
        classes,
        confidence_threshold_bits: 0x3f00_0000,
        model_path: None,
    };
    assert(r@.classes =~= spec_building_segmentation().classes);
    r
}

/// Create a road segmentation model configuration.
pub fn road_segmentation() -> (r: ModelConfig)
    ensures
        r@ == spec_road_segmentation(),
{
    let mut classes = Vec::new();
    classes.push(ClassDef { id: 0, name: "background".to_string(), color: [0, 0, 0] });
    classes.push(ClassDef { id: 1, name: "road".to_string(), color: [255, 255, 0] });
    let r = ModelConfig {
        name: "panoptes-roads-v1".to_string(),
        version: "1.0.0".to_string(),
        task: TaskType::Segmentation,
        input: InputSpec { width: 512, height: 512, channels: 3, imagenet_normalize: true },
        classes,
        confidence_threshold_bits: 0x3ecc_cccd,
        model_path: None,
    };
    assert(r@.classes =~= spec_road_segmentation().classes);
    r
}

/// Create a land cover classification model configuration.
pub fn land_cover_classification() -> (r: ModelConfig)
    ensures
        r@ == spec_land_cover_classification(),
{
    let mut classes = Vec::new();
    classes.push(ClassDef { id: 0, name: "water".to_string(), color: [0, 0, 255] });
    classes.push(ClassDef { id: 1, name: "vegetation".to_string(), color: [0, 255, 0] });
    classes.push(ClassDef { id: 2, name: "bare_soil".to_string(), color: [139, 69, 19] });
    classes.push(ClassDef { id: 3, name: "built_up".to_string(), color: [128, 128, 128] });
    classes.push(ClassDef { id: 4, name: "agriculture".to_string(), color: [255, 255, 0] });
    let r = ModelConfig {
        name: "panoptes-landcover-v1".to_string(),
        version: "1.0.0".to_string(),
        task: TaskType::Segmentation,
        input: InputSpec { width: 256, height: 256, channels: 3, imagenet_normalize: true },
        classes,
        confidence_threshold_bits: 0x3e99_999a,
        model_path: None,
    };
    assert(r@.classes =~= spec_land_cover_classification().classes);
    r
}

/// Create a vegetation index model configuration.
pub fn vegetation_detection() -> (r: ModelConfig)
    ensures
        r@ == spec_vegetation_detection(),
{
    let mut classes = Vec::new();
    classes.push(ClassDef { id: 0, name: "non_vegetation".to_string(), color: [128, 128, 128] });
    classes.push(ClassDef { id: 1, name: "trees".to_string(), color: [0, 128, 0] });
    classes.push(ClassDef { id: 2, name: "shrubs".to_string(), color: [0, 255, 0] });
    classes.push(ClassDef { id: 3, name: "grass".to_string(), color: [144, 238, 144] });
    let r = ModelConfig {
        name: "panoptes-vegetation-v1".to_string(),
        version: "1.0.0".to_string(),
        task: TaskType::Segmentation,
        input: InputSpec { width: 512, height: 512, channels: 3, imagenet_normalize: true },
        classes,
        confidence_threshold_bits: 0x3ecc_cccd,
        model_path: None,
    };
    assert(r@.classes =~= spec_vegetation_detection().classes);
    r
}

/// Create a change detection model configuration.
pub fn change_detection() -> (r: ModelConfig)
    ensures
        r@ == spec_change_detection(),
{
    let mut classes = Vec::new();
    classes.push(ClassDef { id: 0, name: "no_change".to_string(), color: [0, 0, 0] });
    classes.push(ClassDef { id: 1, name: "change".to_string(), color: [255, 0, 255] });
    let r = ModelConfig {
        name: "panoptes-change-v1".to_string(),
        version: "1.0.0".to_string(),
        task: TaskType::ChangeDetection,
        input: InputSpec { width: 256, height: 256, channels: 6, imagenet_normalize: true },
        classes,
        confidence_threshold_bits: 0x3f00_0000,
        model_path: None,
    };
    assert(r@.classes =~= spec_change_detection().classes);
    r
}

/// The configurations of all the catalog's models.
pub open spec fn spec_list_models() -> Seq<ModelConfigView> {
    seq![
        spec_building_segmentation(),
        spec_road_segmentation(),
        spec_land_cover_classification(),
        spec_vegetation_detection(),
        spec_change_detection(),
    ]
}

/// List all available model configurations.
pub fn list_models() -> (r: Vec<ModelConfig>)
    ensures
        r@.map_values(|m: ModelConfig| m@) == spec_list_models(),
{
    let mut models = Vec::new();
    models.push(building_segmentation());
    models.push(road_segmentation());
    models.push(land_cover_classification());
    models.push(vegetation_detection());
    models.push(change_detection());
    assert(models@.map_values(|m: ModelConfig| m@) =~= spec_list_models());
    models
}


/// The classes of a configuration are numbered `0, 1, ...` in order and named, in that
/// order, by `names`.
pub open spec fn classes_named(m: ModelConfigView, names: Seq<Seq<char>>) -> bool {
    &&& m.classes.len() == names.len()
    &&& forall|i: int| 0 <= i < names.len() ==> (#[trigger] m.classes[i]).id == i && m.classes[i].name == names[i]
}

/// The catalog is the table of available models: buildings (background, building), roads
/// (background, road), land cover (water, vegetation, bare_soil, built_up, agriculture),
/// vegetation (non_vegetation, trees, shrubs, grass) and change detection (no_change,
/// change), in that order, with their names and tasks.
pub proof fn lemma_catalog_is_model_table()
    ensures
        spec_list_models().len() == 5,
        spec_list_models()[0].name == "panoptes-buildings-v1"@,
        spec_list_models()[0].task == TaskType::Segmentation,
        classes_named(spec_list_models()[0], seq!["background"@, "building"@]),
        spec_list_models()[1].name == "panoptes-roads-v1"@,
        spec_list_models()[1].task == TaskType::Segmentation,
        classes_named(spec_list_models()[1], seq!["background"@, "road"@]),
        spec_list_models()[2].name == "panoptes-landcover-v1"@,
        spec_list_models()[2].task == TaskType::Segmentation,
        classes_named(
            spec_list_models()[2],
            seq!["water"@, "vegetation"@, "bare_soil"@, "built_up"@, "agriculture"@],
        ),
        spec_list_models()[3].name == "panoptes-vegetation-v1"@,
        spec_list_models()[3].task == TaskType::Segmentation,
        classes_named(spec_list_models()[3], seq!["non_vegetation"@, "trees"@, "shrubs"@, "grass"@]),
        spec_list_models()[4].name == "panoptes-change-v1"@,
        spec_list_models()[4].task == TaskType::ChangeDetection,
        classes_named(spec_list_models()[4], seq!["no_change"@, "change"@]),
{
    assert(spec_list_models()[4] == spec_change_detection());
}

/// In a configuration whose classes are numbered `0, 1, ...` and named by `names`, the class
/// that `class_name` finds for id `id` (the first with that id) is the one at position `id`,
/// named `names[id]`; and there is one for every id below the number of names.
pub proof fn lemma_class_name_by_id(cfg: ModelConfig, names: Seq<Seq<char>>, id: u8)
    requires
        classes_named(cfg@, names),
    ensures
        forall|i: int| #[trigger] first_class_with_id(cfg.classes@, id, i) ==> i == id
            && cfg.classes@[i].name@ == names[id as int],
        id < names.len() ==> first_class_with_id(cfg.classes@, id, id as int),
{
    assert forall|i: int| #[trigger] first_class_with_id(cfg.classes@, id, i) implies i == id
        && cfg.classes@[i].name@ == names[id as int] by {
        assert(cfg@.classes[i] == cfg.classes@[i]@);
    }
    if id < names.len() {
        assert(cfg@.classes[id as int] == cfg.classes@[id as int]@);
        assert forall|j: int| 0 <= j < id implies #[trigger] cfg.classes@[j].id != id by {
            assert(cfg@.classes[j] == cfg.classes@[j]@);
        }
    }
}

/// The change-detection configuration names class 0 `no_change` and class 1 `change`:
/// for each of the two ids there is a class with it, and the first such is so named.
pub proof fn lemma_change_detection_class_names(cfg: ModelConfig)
    requires
        cfg@ == spec_change_detection(),
    ensures
        first_class_with_id(cfg.classes@, 0, 0),
        first_class_with_id(cfg.classes@, 1, 1),
        forall|i: int| #[trigger] first_class_with_id(cfg.classes@, 0, i) ==> cfg.classes@[i].name@
            == "no_change"@,
        forall|i: int| #[trigger] first_class_with_id(cfg.classes@, 1, i) ==> cfg.classes@[i].name@
            == "change"@,
{
    lemma_catalog_is_model_table();
    assert(spec_list_models()[4] == spec_change_detection());
    let names = seq!["no_change"@, "change"@];
    lemma_class_name_by_id(cfg, names, 0);
    lemma_class_name_by_id(cfg, names, 1);
}
} // verus!
