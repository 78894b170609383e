use nsd_packer::container::{
    combined_size, header, make_attribute_bytes, make_binary, make_data_bytes,
    make_dimensions_bytes,
};
use nsd_packer::dimensions::LayerDimensions;
use nsd_packer::error::PackError;
use nsd_packer::layer::Layer;

fn solid(name: &str, dimensions: &LayerDimensions, rgba: [u8; 4]) -> Layer {
    let mut pixels = Vec::new();
    for _ in 0..dimensions.get_texel_count() {
        pixels.extend_from_slice(&rgba);
    }
    Layer::from_rgba(name.to_string(), dimensions, pixels).unwrap()
}

fn numbered(name: &str, dimensions: &LayerDimensions, base: u8) -> Layer {
    let mut pixels = Vec::new();
    for i in 0..dimensions.get_texel_count() {
        pixels.extend_from_slice(&[base + i as u8, 200, 201, 202]);
    }
    Layer::from_rgba(name.to_string(), dimensions, pixels).unwrap()
}

#[test]
fn header_is_the_fixed_magic() {
    assert_eq!(
        header(),
        vec![
            0x4E, 0x53, 0x47, 0xFF, 0x53, 0x70, 0x61, 0x74, 0x69, 0x61, 0x6C, 0x00, 0x00, 0x00,
            0x00, 0x00
        ]
    );
}

#[test]
fn dimension_chunk_bytes() {
    let d = LayerDimensions::from_power_of_two(10, 9);
    assert_eq!(
        make_dimensions_bytes(&d),
        vec![
            0x44, 0x49, 0x4D, 0xFA, 0x00, 0x04, 0x00, 0x00, 0x00, 0x02, 0x00, 0x00, 0x01, 0x00,
            0x00, 0x00, 0x01, 0x00, 0x00, 0x00
        ]
    );
}

#[test]
fn dimension_chunk_is_always_20_bytes() {
    for w in 0..=12u32 {
        for h in 0..=12u32 {
            let d = LayerDimensions::from_power_of_two(w, h);
            let bytes = make_dimensions_bytes(&d);
            assert_eq!(bytes.len(), 20);
            assert_eq!(u32::from_le_bytes([bytes[4], bytes[5], bytes[6], bytes[7]]), 1 << w);
            assert_eq!(u32::from_le_bytes([bytes[8], bytes[9], bytes[10], bytes[11]]), 1 << h);
        }
    }
}

#[test]
fn attribute_chunks_follow_the_list() {
    let d = LayerDimensions::from_power_of_two(0, 0);
    let layers = vec![solid("height", &d, [1, 2, 3, 4]), solid("é", &d, [5, 6, 7, 8])];
    assert_eq!(
        make_attribute_bytes(&layers),
        vec![
            0x41, 0x54, 0x52, 0xFA, b'h', b'e', b'i', b'g', b'h', b't', 0, 1, 3, 0x41, 0x54, 0x52,
            0xFA, 0xC3, 0xA9, 0, 1, 3
        ]
    );
}

#[test]
fn no_layers_no_attribute_bytes() {
    let layers: Vec<Layer> = Vec::new();
    assert_eq!(make_attribute_bytes(&layers), Vec::<u8>::new());
}

#[test]
fn red_and_gray_interleave() {
    let d = LayerDimensions::from_power_of_two(1, 1);
    let layers = vec![solid("red", &d, [255, 0, 0, 255]), solid("gray", &d, [128, 128, 128, 255])];
    let chunk = make_data_bytes(&layers, &d).unwrap();
    assert_eq!(
        chunk,
        vec![0x44, 0x41, 0x54, 0xFA, 8, 0, 0, 0, 255, 128, 255, 128, 255, 128, 255, 128]
    );
}

#[test]
fn payload_is_texel_major_and_row_major() {
    let d = LayerDimensions::from_power_of_two(1, 2);
    let layers = vec![numbered("a", &d, 0), numbered("b", &d, 50), numbered("c", &d, 100)];
    let chunk = make_data_bytes(&layers, &d).unwrap();
    assert_eq!(chunk.len(), 8 + 3 * 2 * 4);
    assert_eq!(u32::from_le_bytes([chunk[4], chunk[5], chunk[6], chunk[7]]), 24);
    for i in 0..8usize {
        for k in 0..3usize {
            let x = (i % 2) as u32;
            let y = (i / 2) as u32;
            assert_eq!(chunk[8 + i * 3 + k], layers[k].red_at(x, y));
            assert_eq!(chunk[8 + i * 3 + k], (k * 50 + i) as u8);
        }
    }
}

#[test]
fn data_chunk_of_no_layers_is_empty_payload() {
    let d = LayerDimensions::from_power_of_two(2, 2);
    let layers: Vec<Layer> = Vec::new();
    assert_eq!(make_data_bytes(&layers, &d), Ok(vec![0x44, 0x41, 0x54, 0xFA, 0, 0, 0, 0]));
}

#[test]
fn combined_size_is_the_product() {
    let d = LayerDimensions::from_power_of_two(10, 9);
    assert_eq!(combined_size(3, &d), Ok(1_572_864));
    assert_eq!(combined_size(0, &d), Ok(0));
    let d = LayerDimensions::from_power_of_two(12, 12);
    assert_eq!(combined_size(255, &d), Ok(4_278_190_080));
    let d = LayerDimensions::from_power_of_two(0, 0);
    assert_eq!(combined_size(4_294_967_295, &d), Ok(u32::MAX));
}

#[test]
fn combined_size_over_32_bits_is_refused() {
    let d = LayerDimensions::from_power_of_two(12, 12);
    assert_eq!(combined_size(256, &d), Err(PackError::SizeOverflowError));
    assert_eq!(combined_size(usize::MAX, &d), Err(PackError::SizeOverflowError));
    let d = LayerDimensions::from_power_of_two(0, 0);
    assert_eq!(combined_size(4_294_967_296, &d), Err(PackError::SizeOverflowError));
}

#[test]
fn whole_container_bytes() {
    let d = LayerDimensions::from_power_of_two(1, 1);
    let layers = vec![solid("a", &d, [255, 0, 0, 255]), solid("b", &d, [128, 128, 128, 255])];
    let mut want: Vec<u8> = vec![
        0x4E, 0x53, 0x47, 0xFF, 0x53, 0x70, 0x61, 0x74, 0x69, 0x61, 0x6C, 0x00, 0x00, 0x00, 0x00,
        0x00,
    ];
    want.extend_from_slice(&[0x44, 0x49, 0x4D, 0xFA, 2, 0, 0, 0, 2, 0, 0, 0, 1, 0, 0, 0, 1, 0, 0, 0]);
    want.extend_from_slice(&[0x41, 0x54, 0x52, 0xFA, b'a', 0, 1, 3]);
    want.extend_from_slice(&[0x41, 0x54, 0x52, 0xFA, b'b', 0, 1, 3]);
    want.extend_from_slice(&[0x44, 0x41, 0x54, 0xFA, 8, 0, 0, 0]);
    want.extend_from_slice(&[255, 128, 255, 128, 255, 128, 255, 128]);
    assert_eq!(make_binary(&layers, &d), Ok(want));
}

#[test]
fn container_is_the_four_parts_in_order() {
    let d = LayerDimensions::from_power_of_two(2, 1);
    let layers = vec![numbered("one", &d, 7), numbered("two", &d, 70)];
    let mut want = header();
    want.extend(make_dimensions_bytes(&d));
    want.extend(make_attribute_bytes(&layers));
    want.extend(make_data_bytes(&layers, &d).unwrap());
    assert_eq!(make_binary(&layers, &d).unwrap(), want);
}

#[test]
fn same_input_same_bytes() {
    let d = LayerDimensions::from_power_of_two(2, 2);
    let first = vec![numbered("one", &d, 7), numbered("two", &d, 70)];
    let second = vec![numbered("one", &d, 7), numbered("two", &d, 70)];
    assert_eq!(make_binary(&first, &d), make_binary(&first, &d));
    assert_eq!(make_binary(&first, &d), make_binary(&second, &d));
}

#[test]
fn layer_order_decides_byte_order() {
    let d = LayerDimensions::from_power_of_two(0, 0);
    let ab = vec![solid("a", &d, [1, 0, 0, 0]), solid("b", &d, [2, 0, 0, 0])];
    let ba = vec![solid("b", &d, [2, 0, 0, 0]), solid("a", &d, [1, 0, 0, 0])];
    assert_eq!(make_data_bytes(&ab, &d).unwrap()[8..], [1, 2]);
    assert_eq!(make_data_bytes(&ba, &d).unwrap()[8..], [2, 1]);
}

#[test]
fn exchanging_two_layers_exchanges_their_bytes() {
    let d = LayerDimensions::from_power_of_two(1, 1);
    let abc = vec![numbered("a", &d, 0), numbered("b", &d, 50), numbered("c", &d, 100)];
    let cba = vec![numbered("c", &d, 100), numbered("b", &d, 50), numbered("a", &d, 0)];
    let first = make_data_bytes(&abc, &d).unwrap();
    let second = make_data_bytes(&cba, &d).unwrap();
    for i in 0..4usize {
        assert_eq!(second[8 + i * 3], first[8 + i * 3 + 2]);
        assert_eq!(second[8 + i * 3 + 1], first[8 + i * 3 + 1]);
        assert_eq!(second[8 + i * 3 + 2], first[8 + i * 3]);
    }
}
