//! Colour mixing for wires whose two pins ask for different colours.
//!
//! The colours are egui's `Color32`. What a colour holds is not visible
//! here: the four functions that read a channel and the one that builds a
//! colour are taken on trust, as what egui's source shows them to be.

use vstd::prelude::*;

verus! {

/// egui's 32-bit colour, carried as an opaque value.
#[verifier::external_type_specification]
#[verifier::external_body]
pub struct ExColor32(egui::Color32);

/// The four bytes that a colour stores: its channels red, green, blue,
/// each multiplied by alpha, and alpha, in this order.
pub uninterp spec fn color_channels(c: egui::Color32) -> Seq<u8>;

/// Taken on trust: `Color32::r` returns the first of the four stored bytes.
#[verifier::external_body]
fn red(c: &egui::Color32) -> (r: u8)
    ensures
        r == color_channels(*c)[0],
{
    c.r()
}

/// Taken on trust: `Color32::g` returns the second of the four stored
/// bytes.
#[verifier::external_body]
fn green(c: &egui::Color32) -> (r: u8)
    ensures
        r == color_channels(*c)[1],
{
    c.g()
}

/// Taken on trust: `Color32::b` returns the third of the four stored bytes.
#[verifier::external_body]
fn blue(c: &egui::Color32) -> (r: u8)
    ensures
        r == color_channels(*c)[2],
{
    c.b()
}

/// Taken on trust: `Color32::a` returns the fourth of the four stored
/// bytes.
#[verifier::external_body]
fn alpha(c: &egui::Color32) -> (r: u8)
    ensures
        r == color_channels(*c)[3],
{
    c.a()
}

/// Taken on trust: `Color32::from_rgba_premultiplied` builds the colour
/// that stores the four bytes as they are given.
#[verifier::external_body]
fn from_premultiplied(r: u8, g: u8, b: u8, a: u8) -> (c: egui::Color32)
    ensures
        color_channels(c) == seq![r, g, b, a],
{
    egui::Color32::from_rgba_premultiplied(r, g, b, a)
}

/// The midpoint of two channel values, rounded down.
pub open spec fn midpoint(a: u8, b: u8) -> u8 {
    ((a + b) / 2) as u8
}

/// Midpoint of two channel values without leaving `u8`.
pub fn channel_midpoint(a: u8, b: u8) -> (m: u8)
    ensures
        m == midpoint(a, b),
{
    let wide: u16 = (a as u16 + b as u16) / 2;
    wide as u8
}

/// Mixes two colours channel by channel: each channel of the result is the
/// midpoint of the same channel of `a` and `b`, rounded down.
pub fn mix_colors(a: egui::Color32, b: egui::Color32) -> (c: egui::Color32)
    ensures
        color_channels(c).len() == 4,
        forall|i: int|
            0 <= i < 4 ==> color_channels(c)[i] == midpoint(
                color_channels(a)[i],
                color_channels(b)[i],
            ),
{
    let r: u8 = channel_midpoint(red(&a), red(&b));
    let g: u8 = channel_midpoint(green(&a), green(&b));
    let bl: u8 = channel_midpoint(blue(&a), blue(&b));
    let al: u8 = channel_midpoint(alpha(&a), alpha(&b));
    from_premultiplied(r, g, bl, al)
}

} // verus!
