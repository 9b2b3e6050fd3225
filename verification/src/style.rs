//! The style value: an optional background color, an optional foreground
//! color, and the opacity applied to each side.
//!
//! Opacity scales are fixed-point fractions of 255: the value 255 stands for
//! a fully opaque rendering and 0 for a fully transparent one. The effective
//! opacity of a side is the color's configured factor scaled by the global
//! default factor.

use vstd::prelude::*;

verus! {

/// The opacity configured for one color: a pair of factors, one applied when
/// the color is used as a background and one when it is used as a foreground.
#[derive(Clone, Copy, Debug, PartialEq, Eq)]
pub struct ColorOpacity {
    /// Factor applied where the color is a style's background.
    pub background: u8,
    /// Factor applied where the color is a style's foreground.
    pub foreground: u8,
}

/// A rendering style: which colors it uses on each side, and the opacity
/// currently applied to each side. `None` opacity means no opacity pass has
/// touched that side yet.
#[derive(Clone, Copy, Debug, PartialEq, Eq)]
pub struct Style {
    /// The background color identifier, if the style has a background.
    pub background: Option<u64>,
    /// The foreground color identifier, if the style has a foreground.
    pub foreground: Option<u64>,
    /// The opacity applied to the background side, if any.
    pub background_opacity: Option<u8>,
    /// The opacity applied to the foreground side, if any.
    pub foreground_opacity: Option<u8>,
}

/// The effective opacity of a side: the color's factor scaled by the default
/// factor, both read as fractions of 255.
pub open spec fn spec_derived_opacity(factor: u8, scale: u8) -> u8 {
    ((factor * scale) / 255) as u8
}

/// `s` with its background opacity recomputed from `o` and `scale`.
pub open spec fn with_background_opacity(s: Style, o: ColorOpacity, scale: u8) -> Style {
    Style { background_opacity: Some(spec_derived_opacity(o.background, scale)), ..s }
}

/// `s` with its foreground opacity recomputed from `o` and `scale`.
pub open spec fn with_foreground_opacity(s: Style, o: ColorOpacity, scale: u8) -> Style {
    Style { foreground_opacity: Some(spec_derived_opacity(o.foreground, scale)), ..s }
}

/// The style stored by the set-style path: each side whose color has a
/// configured opacity gets that opacity applied at scale `scale`; a side with
/// no color, or whose color has no entry, is left as it came in.
pub open spec fn adjusted_for_set(s: Style, opacities: Map<u64, ColorOpacity>, scale: u8) -> Style {
    let with_bg = match s.background {
        Some(c) => if opacities.contains_key(c) {
            with_background_opacity(s, opacities[c], scale)
        } else {
            s
        },
        None => s,
    };
    match s.foreground {
        Some(c) => if opacities.contains_key(c) {
            with_foreground_opacity(with_bg, opacities[c], scale)
        } else {
            with_bg
        },
        None => with_bg,
    }
}

/// The effective opacity of a side, computed without overflow.
pub fn derived_opacity(factor: u8, scale: u8) -> (r: u8)
    ensures
        r == spec_derived_opacity(factor, scale),
{
    let wide_factor: u32 = factor as u32;
    let wide_scale: u32 = scale as u32;
    proof {
        assert(wide_factor * wide_scale <= 65025) by (nonlinear_arith)
            requires
                wide_factor <= 255,
                wide_scale <= 255,
        ;
    }
    let wide: u32 = wide_factor * wide_scale;
    (wide / 255) as u8
}

impl Style {
    /// A style over the given colors with no opacity applied to either side.
    pub fn new(background: Option<u64>, foreground: Option<u64>) -> (r: Style)
        ensures
            r == (Style { background, foreground, background_opacity: None, foreground_opacity: None }),
    {
        Style { background, foreground, background_opacity: None, foreground_opacity: None }
    }

    /// The background color identifier, if any.
    pub fn bg(&self) -> (r: Option<u64>)
        ensures
            r == self.background,
    {
        self.background
    }

    /// The foreground color identifier, if any.
    pub fn fg(&self) -> (r: Option<u64>)
        ensures
            r == self.foreground,
    {
        self.foreground
    }

    /// Recompute the background opacity from `color_opacity` at the default
    /// scale `default_opacity`. The result depends only on those two inputs,
    /// never on the opacity previously applied.
    pub fn set_background_opacity(&mut self, color_opacity: &ColorOpacity, default_opacity: u8)
        ensures
            *final(self) == with_background_opacity(*old(self), *color_opacity, default_opacity),
    {
        self.background_opacity = Some(derived_opacity(color_opacity.background, default_opacity));
    }

    /// Recompute the foreground opacity from `color_opacity` at the default
    /// scale `default_opacity`. The result depends only on those two inputs,
    /// never on the opacity previously applied.
    pub fn set_foreground_opacity(&mut self, color_opacity: &ColorOpacity, default_opacity: u8)
        ensures
            *final(self) == with_foreground_opacity(*old(self), *color_opacity, default_opacity),
    {
        self.foreground_opacity = Some(derived_opacity(color_opacity.foreground, default_opacity));
    }
}

} // verus!
