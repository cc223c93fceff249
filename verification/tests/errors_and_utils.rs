use thaimeleon_lib::accent_hues::AccentHueBuilderError;
use thaimeleon_lib::cluster::ClusterError;
use thaimeleon_lib::neutral_color_builder::NeutralColorBuilderError;
use thaimeleon_lib::parse_image::ParseImageError;
use thaimeleon_lib::scheme_builder::GenerationError;
use thaimeleon_lib::utils::map_range;

#[test]
fn map_range_maps_linearly() {
    assert_eq!(map_range((0i64, 10), (0, 100), 5), 50);
    assert_eq!(map_range((0i64, 10), (100, 0), 3), 70);
    assert_eq!(map_range((10i32, 20), (1, 3), 15), 2);
    // Integer division truncates toward zero.
    assert_eq!(map_range((0i64, 3), (0, 10), 1), 3);
    assert_eq!(map_range((0u8, 2), (0, 5), 1), 2);
}

#[test]
fn map_range_sends_ends_to_ends() {
    assert_eq!(map_range((3i64, 11), (-40, 25), 3), -40);
    assert_eq!(map_range((3i64, 11), (-40, 25), 11), 25);
    assert_eq!(map_range((2u32, 7), (1, 9), 7), 9);
    assert_eq!(map_range((-2i8, 2), (10, -10), 2), -10);
    assert_eq!(map_range((100usize, 101), (0, 1000), 101), 1000);
}

#[test]
fn generation_errors_wrap_stage_errors() {
    assert_eq!(
        GenerationError::from(ParseImageError::EmptyInput),
        GenerationError::ParseImage(ParseImageError::EmptyInput)
    );
    assert_eq!(
        GenerationError::from(NeutralColorBuilderError::NoLightnessCenterSet),
        GenerationError::NeutralColorGeneration(NeutralColorBuilderError::NoLightnessCenterSet)
    );
    assert_eq!(
        GenerationError::from(AccentHueBuilderError::Cluster(ClusterError::InternalError)),
        GenerationError::AccentHueGeneration(AccentHueBuilderError::Cluster(ClusterError::InternalError))
    );
}
