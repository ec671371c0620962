//! The onboard LED that shows whether the reader is active: green when it is,
//! red when it is not, dimmed, and written only when that changes.
use vstd::prelude::*;

use smart_leds::RGB8;

verus! {

/// A color as the LED takes it.
#[derive(Clone, Copy, Debug, PartialEq, Eq, Structural)]
pub struct Rgb {
    pub r: u8,
    pub g: u8,
    pub b: u8,
}

/// What the LED shows.
#[derive(Clone, Copy, Debug, PartialEq, Eq, Structural)]
pub enum LightState {
    /// Nothing written yet.
    Uninit,
    Active,
    Inactive,
}

/// The brightness level the LED is driven at.
pub const LED_BRIGHTNESS: u8 = 10;

/// One channel scaled to `level`, as `smart_leds::brightness` does it.
pub open spec fn scaled(channel: u8, level: u8) -> u8 {
    (channel * (level + 1) / 256) as u8
}

/// `color` scaled to `level`.
pub open spec fn dimmed(color: Rgb, level: u8) -> Rgb {
    Rgb { r: scaled(color.r, level), g: scaled(color.g, level), b: scaled(color.b, level) }
}

pub open spec fn spec_green() -> Rgb {
    Rgb { r: 0x00, g: 0x80, b: 0x00 }
}

pub open spec fn spec_red() -> Rgb {
    Rgb { r: 0xFF, g: 0x00, b: 0x00 }
}

/// `smart_leds::colors::GREEN`, which is defined as `RGB8 { r: 0x00, g: 0x80, b: 0x00 }`.
#[verifier::external_body]
fn green() -> (c: Rgb)
    ensures
        c == spec_green(),
{
    let c = smart_leds::colors::GREEN;
    Rgb { r: c.r, g: c.g, b: c.b }
}

/// `smart_leds::colors::RED`, which is defined as `RGB8 { r: 0xFF, g: 0x00, b: 0x00 }`.
#[verifier::external_body]
fn red() -> (c: Rgb)
    ensures
        c == spec_red(),
{
    let c = smart_leds::colors::RED;
    Rgb { r: c.r, g: c.g, b: c.b }
}

/// Calls `smart_leds::brightness` on the one color `color`: its iterator maps
/// each channel `c` to `(c as u16 * (level as u16 + 1) / 256) as u8`, and
/// yields as many colors as it is given, here one.
#[verifier::external_body]
fn dim(color: Rgb, level: u8) -> (d: Rgb)
    ensures
        d == dimmed(color, level),
{
    let c = smart_leds::brightness(core::iter::once(RGB8::new(color.r, color.g, color.b)), level)
        .next()
        .unwrap();
    Rgb { r: c.r, g: c.g, b: c.b }
}

/// What the LED shows while the reader is `active` or not.
pub open spec fn shown(active: bool) -> LightState {
    if active {
        LightState::Active
    } else {
        LightState::Inactive
    }
}

/// The color the LED is written for `state`.
pub open spec fn color_of(state: LightState) -> Rgb {
    if state == LightState::Active {
        dimmed(spec_green(), LED_BRIGHTNESS)
    } else {
        dimmed(spec_red(), LED_BRIGHTNESS)
    }
}

/// One tick of the light task: from what the LED shows and whether the reader
/// is active, what it shows next, and the color to write if that changed.
pub open spec fn light_step(state: LightState, active: bool) -> (LightState, Option<Rgb>) {
    let next = shown(active);
    (next, if next == state {
        None
    } else {
        Some(color_of(next))
    })
}

pub fn light_update(state: LightState, active: bool) -> (r: (LightState, Option<Rgb>))
    ensures
        r == light_step(state, active),
        r.0 == (if active {
            LightState::Active
        } else {
            LightState::Inactive
        }),
        r.1 matches Some(c) ==> c == (if active {
            Rgb { r: 0, g: 5, b: 0 }
        } else {
            Rgb { r: 10, g: 0, b: 0 }
        }),
        r.1 is Some <==> state != r.0,
{
    proof {
        law_light_shows_activity(state, active);
    }
    let new_state = if active {
        LightState::Active
    } else {
        LightState::Inactive
    };
    if new_state == state {
        return (state, None);
    }
    let color = match new_state {
        LightState::Active => green(),
        _ => red(),
    };
    (new_state, Some(dim(color, LED_BRIGHTNESS)))
}

/// Law: the LED shows the reader's activity, whatever it showed before. A
/// color is written exactly when what the LED shows changes, and it is dim
/// green (green 0x80 at brightness 10: `(0, 5, 0)`) when the reader is active,
/// dim red (red 0xFF at brightness 10: `(10, 0, 0)`) when it is not.
pub proof fn law_light_shows_activity(state: LightState, active: bool)
    ensures
        light_step(state, active).0 == (if active {
            LightState::Active
        } else {
            LightState::Inactive
        }),
        light_step(state, active).1 matches Some(c) ==> c == (if active {
            Rgb { r: 0, g: 5, b: 0 }
        } else {
            Rgb { r: 10, g: 0, b: 0 }
        }),
        light_step(state, active).1 matches Some(c) ==> c == (if active {
            dimmed(spec_green(), 10)
        } else {
            dimmed(spec_red(), 10)
        }),
        light_step(state, active).1 is Some <==> state != light_step(state, active).0,
{
    assert(0x80 * (10 + 1) / 256 == 5) by (nonlinear_arith);
    assert(0xFF * (10 + 1) / 256 == 10) by (nonlinear_arith);
    assert(0 * (10 + 1) / 256 == 0) by (nonlinear_arith);
}

/// Law: the LED is written only when the reader's activity changes. A second
/// tick that finds the reader as active as the first writes nothing, and after
/// any tick the LED no longer counts as unwritten.
pub proof fn law_light_writes_only_on_change(state: LightState, active: bool)
    ensures
        light_step(light_step(state, active).0, active).1 is None,
        light_step(state, active).0 != LightState::Uninit,
        light_step(state, active).0 == LightState::Active <==> active,
{
}

} // verus!
