use nsd_packer::dimensions::LayerDimensions;
use nsd_packer::error::PackError;

#[test]
fn powers_give_sides() {
    let d = LayerDimensions::from_power_of_two(0, 0);
    assert_eq!((d.width, d.height), (1, 1));
    let d = LayerDimensions::from_power_of_two(12, 12);
    assert_eq!((d.width, d.height), (4096, 4096));
    let d = LayerDimensions::from_power_of_two(3, 5);
    assert_eq!((d.width, d.height), (8, 32));
}

#[test]
fn every_valid_power_is_a_power_of_two() {
    for w in 0..=12u32 {
        for h in 0..=12u32 {
            let d = LayerDimensions::from_power_of_two(w, h);
            assert_eq!(d.width, 1u32 << w);
            assert_eq!(d.height, 1u32 << h);
            assert_eq!(d.get_texel_count(), (1usize << w) * (1usize << h));
        }
    }
}

#[test]
fn texel_count_is_the_product() {
    assert_eq!(LayerDimensions::from_power_of_two(10, 9).get_texel_count(), 524_288);
    assert_eq!(LayerDimensions::from_power_of_two(0, 0).get_texel_count(), 1);
    assert_eq!(LayerDimensions::from_power_of_two(12, 12).get_texel_count(), 16_777_216);
}

#[test]
fn default_is_1024_by_512() {
    let d = LayerDimensions::default();
    assert_eq!(d.width, 1024);
    assert_eq!(d.height, 512);
    assert_eq!(d, LayerDimensions::from_power_of_two(10, 9));
}

#[test]
fn only_a_missing_resize_directory_is_survivable() {
    assert!(PackError::NoLayersFound.is_fatal());
    assert!(PackError::NamingError.is_fatal());
    assert!(PackError::DecodeError.is_fatal());
    assert!(PackError::SizeOverflowError.is_fatal());
    assert!(PackError::WriteError.is_fatal());
    assert!(!PackError::DirectoryCreateError.is_fatal());
}
