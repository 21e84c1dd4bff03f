use sdf_graph::color::{
    alpha_map_name, color_for_family, hex_channels, Channels, ACCENT, BACKGROUND, COMBINER, DOMAIN,
    GENERATOR, RENDER, SELECTION,
};
use sdf_graph::operator::{Connectivity, DomainType, OpFamily, PrimitiveType};

/// The colour of a code, with each channel between 0 and 1.
fn unit_channels(code: u32) -> (f32, f32, f32) {
    let channels = hex_channels(code);
    (
        channels.r as f32 / 255.0,
        channels.g as f32 / 255.0,
        channels.b as f32 / 255.0,
    )
}

#[test]
fn test_white_hex() {
    assert_eq!(unit_channels(0xFFFFFF), (1.0, 1.0, 1.0));
}

#[test]
fn test_black_hex() {
    assert_eq!(unit_channels(0x000000), (0.0, 0.0, 0.0));
}

#[test]
fn channels_of_a_code() {
    assert_eq!(hex_channels(0x2B2B2B), Channels { r: 0x2B, g: 0x2B, b: 0x2B });
    assert_eq!(hex_channels(0xC77832), Channels { r: 0xC7, g: 0x78, b: 0x32 });
    assert_eq!(hex_channels(0x0000FF), Channels { r: 0, g: 0, b: 255 });
    assert_eq!(hex_channels(0x00FF00), Channels { r: 0, g: 255, b: 0 });
    assert_eq!(hex_channels(0xFF0000), Channels { r: 255, g: 0, b: 0 });
}

#[test]
fn bits_above_the_red_channel_are_not_read() {
    assert_eq!(hex_channels(0xAB123456), Channels { r: 0x12, g: 0x34, b: 0x56 });
    assert_eq!(hex_channels(u32::MAX), Channels { r: 255, g: 255, b: 255 });
}

#[test]
fn the_palette() {
    assert_eq!(BACKGROUND, 0x2B2B2B);
    assert_eq!(ACCENT, 0x373737);
    assert_eq!(SELECTION, 0x76B264);
    assert_eq!(color_for_family(OpFamily::Domain(DomainType::Root)), DOMAIN);
    assert_eq!(color_for_family(OpFamily::Domain(DomainType::Bend)), 0x6F818E);
    assert_eq!(
        color_for_family(OpFamily::Primitive(PrimitiveType::Sphere)),
        GENERATOR
    );
    assert_eq!(
        color_for_family(OpFamily::Primitive(PrimitiveType::Torus)),
        0x8F719D
    );
    assert_eq!(
        color_for_family(OpFamily::Primitive(PrimitiveType::Union)),
        COMBINER
    );
    assert_eq!(
        color_for_family(OpFamily::Primitive(PrimitiveType::SmoothMinimum)),
        0xA8B6C5
    );
    assert_eq!(
        color_for_family(OpFamily::Primitive(PrimitiveType::Render)),
        RENDER
    );
    assert_eq!(RENDER, 0xC77832);
}

#[test]
fn the_masks_of_the_slots() {
    assert_eq!(alpha_map_name(Connectivity::InputOutput), "alpha_input_output");
    assert_eq!(alpha_map_name(Connectivity::Input), "alpha_input");
    assert_eq!(alpha_map_name(Connectivity::Output), "alpha_output");
}
