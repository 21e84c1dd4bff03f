//! Colours as `0xRRGGBB` codes: the palette of the editor and the channels
//! of a code.

use crate::operator::{Connectivity, OpFamily, PrimitiveType};
use vstd::prelude::*;

verus! {

/// The background of the editor, a dark gray.
pub const BACKGROUND: u32 = 0x2B2B2B;

/// The grid and the slots of an operator, a lighter gray.
pub const ACCENT: u32 = 0x373737;

/// Operators that transform the domain.
pub const DOMAIN: u32 = 0x6F818E;

/// Operators that make a shape, purple.
pub const GENERATOR: u32 = 0x8F719D;

/// Operators that combine two shapes, blue.
pub const COMBINER: u32 = 0xA8B6C5;

/// The render operator, orange.
pub const RENDER: u32 = 0xC77832;

/// The frame of the selected operator, green.
pub const SELECTION: u32 = 0x76B264;

/// The red, green and blue channel of a colour, each from 0 to 255.
#[derive(Copy, Clone, Debug, PartialEq, Eq, Structural)]
pub struct Channels {
    pub r: u8,
    pub g: u8,
    pub b: u8,
}

/// The channels of the code `0xRRGGBB`. Bits above the red channel are not
/// read.
pub open spec fn channels_of(code: u32) -> Channels {
    Channels {
        r: ((code / 0x10000) % 0x100) as u8,
        g: ((code / 0x100) % 0x100) as u8,
        b: (code % 0x100) as u8,
    }
}

/// The colour that operators of `family` are drawn in.
pub open spec fn family_color(family: OpFamily) -> u32 {
    match family {
        OpFamily::Domain(_) => DOMAIN,
        OpFamily::Primitive(primitive) => if primitive.is_generator() {
            GENERATOR
        } else if primitive.is_combinator() {
            COMBINER
        } else {
            RENDER
        },
    }
}

/// The channels of the code `0xRRGGBB`.
pub fn hex_channels(code: u32) -> (channels: Channels)
    ensures
        channels == channels_of(code),
{
    let r = (code >> 16) & 0xFF;
    let g = (code >> 8) & 0xFF;
    let b = code & 0xFF;
    assert(r == (code / 0x10000) % 0x100 && g == (code / 0x100) % 0x100 && b == code % 0x100) by (bit_vector)
        requires
            r == (code >> 16) & 0xFF,
            g == (code >> 8) & 0xFF,
            b == code & 0xFF,
    ;
    Channels { r: r as u8, g: g as u8, b: b as u8 }
}

/// The colour that operators of `family` are drawn in.
pub fn color_for_family(family: OpFamily) -> (code: u32)
    ensures
        code == family_color(family),
{
    match family {
        OpFamily::Domain(_) => DOMAIN,
        OpFamily::Primitive(primitive) => match primitive {
            PrimitiveType::Sphere
            | PrimitiveType::Box
            | PrimitiveType::Plane
            | PrimitiveType::Torus => GENERATOR,
            PrimitiveType::Union
            | PrimitiveType::Subtraction
            | PrimitiveType::Intersection
            | PrimitiveType::SmoothMinimum => COMBINER,
            PrimitiveType::Render => RENDER,
        },
    }
}

/// The name of the mask that operators with the slots `connectivity` are
/// drawn through.
pub fn alpha_map_name(connectivity: Connectivity) -> (name: &'static str)
    ensures
        name@ == match connectivity {
            Connectivity::InputOutput => "alpha_input_output"@,
            Connectivity::Input => "alpha_input"@,
            Connectivity::Output => "alpha_output"@,
        },
{
    match connectivity {
        Connectivity::InputOutput => "alpha_input_output",
        Connectivity::Input => "alpha_input",
        Connectivity::Output => "alpha_output",
    }
}

} // verus!
