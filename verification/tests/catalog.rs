use panoptes::catalog::{building_segmentation, change_detection, land_cover_classification, list_models, road_segmentation, vegetation_detection};
use panoptes::model::TaskType;
use panoptes::pipeline::Pipeline;

#[test]
fn test_list_models() {
    let models = list_models();
    assert_eq!(models.len(), 5);
    assert_eq!(models[0].name, "panoptes-buildings-v1");
}

#[test]
fn test_building_model_config() {
    let config = building_segmentation();
    assert_eq!(config.classes.len(), 2);
    assert_eq!(config.input.width, 512);
    assert!(matches!(config.task, TaskType::Segmentation));
}

#[test]
fn test_change_detection_config() {
    let config = change_detection();
    assert_eq!(config.input.channels, 6);
    assert!(matches!(config.task, TaskType::ChangeDetection));
}

#[test]
fn test_pipeline_creation() {
    let config = building_segmentation();
    let pipeline = Pipeline::new(config);
    assert_eq!(pipeline.window_config.tile_width, 512);
    assert_eq!(pipeline.window_config.overlap, 128);
}

#[test]
fn catalog_names_thresholds_and_classes() {
    let names: Vec<String> = list_models().into_iter().map(|m| m.name).collect();
    assert_eq!(
        names,
        vec![
            "panoptes-buildings-v1",
            "panoptes-roads-v1",
            "panoptes-landcover-v1",
            "panoptes-vegetation-v1",
            "panoptes-change-v1"
        ]
    );
    assert_eq!(f32::from_bits(building_segmentation().confidence_threshold_bits), 0.5);
    assert_eq!(f32::from_bits(road_segmentation().confidence_threshold_bits), 0.4);
    assert_eq!(f32::from_bits(land_cover_classification().confidence_threshold_bits), 0.3);
    assert_eq!(f32::from_bits(vegetation_detection().confidence_threshold_bits), 0.4);
    let land = land_cover_classification();
    assert_eq!(land.num_classes(), 5);
    assert_eq!(land.class_name(2), Some("bare_soil"));
    assert_eq!(land.classes[2].color, [139, 69, 19]);
    assert_eq!(land.class_name(9), None);
    assert_eq!(vegetation_detection().class_name(3), Some("grass"));
    assert_eq!(road_segmentation().classes[1].color, [255, 255, 0]);
    assert!(list_models().iter().all(|m| m.version == "1.0.0" && m.model_path.is_none()));
}

#[test]
fn pipeline_defaults_follow_input_width() {
    let pipeline = Pipeline::new(land_cover_classification());
    assert_eq!(pipeline.window_config.tile_height, 256);
    assert_eq!(pipeline.window_config.overlap, 64);
    assert_eq!(pipeline.min_area, 10);
}
