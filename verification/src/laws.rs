//! The registry's cross-operation guarantees, stated over the same spec
//! functions its method contracts use.

use vstd::prelude::*;

use crate::registry::globally_rescaled;
use crate::registry::opacity_update;
use crate::registry::rescale_source;
use crate::registry::rescaled_style;
use crate::style::ColorOpacity;
use crate::style::Style;
use crate::style::adjusted_for_set;
use crate::style::spec_derived_opacity;

verus! {

/// Opacity applied at definition: a style adjusted by the set-style path
/// while an opacity is configured for one of its colors carries that
/// opacity, derived at the given scale, on the matching side. Through
/// `set_style`'s contract, the stored style reflects a previously configured
/// opacity immediately, with no extra call.
pub proof fn lemma_opacity_applied_at_definition(
    style: Style,
    opacities: Map<u64, ColorOpacity>,
    c: u64,
    scale: u8,
)
    requires
        opacities.contains_key(c),
    ensures
        style.background == Some(c) ==> adjusted_for_set(style, opacities, scale)
            .background_opacity == Some(spec_derived_opacity(opacities[c].background, scale)),
        style.foreground == Some(c) ==> adjusted_for_set(style, opacities, scale)
            .foreground_opacity == Some(spec_derived_opacity(opacities[c].foreground, scale)),
{
}

/// Propagation on opacity change: the single-color update gives every style
/// recorded against the color as background the background opacity derived
/// from the new opacity and scale, and leaves the background opacity of any
/// other style unchanged; symmetrically for the foreground side.
pub proof fn lemma_propagation_on_opacity_change(
    s: Style,
    in_background: bool,
    in_foreground: bool,
    o: ColorOpacity,
    scale: u8,
)
    ensures
        in_background ==> opacity_update(s, in_background, in_foreground, o, scale)
            .background_opacity == Some(spec_derived_opacity(o.background, scale)),
        !in_background ==> opacity_update(s, in_background, in_foreground, o, scale)
            .background_opacity == s.background_opacity,
        in_foreground ==> opacity_update(s, in_background, in_foreground, o, scale)
            .foreground_opacity == Some(spec_derived_opacity(o.foreground, scale)),
        !in_foreground ==> opacity_update(s, in_background, in_foreground, o, scale)
            .foreground_opacity == s.foreground_opacity,
        opacity_update(s, in_background, in_foreground, o, scale).background == s.background,
        opacity_update(s, in_background, in_foreground, o, scale).foreground == s.foreground,
{
}

/// No interference: the single-color update leaves a style untouched whose
/// identifier is recorded against neither side of the updated color — in
/// particular, updating one color never changes a style associated only with
/// other colors.
pub proof fn lemma_no_interference(s: Style, o: ColorOpacity, scale: u8)
    ensures
        opacity_update(s, false, false, o, scale) == s,
{
}

/// Global-rescale idempotence: rescaling a style a second time with the same
/// sources and scale changes nothing, because the recomputation is a pure
/// function of the configured opacity and the scale, never of the style's
/// prior opacity. The rescale alters neither the reverse indices nor the
/// opacity table, so a repeated `update_all_styles_opacity` call sees the
/// same source for every style.
pub proof fn lemma_global_rescale_idempotent(
    s: Style,
    bg_source: Option<ColorOpacity>,
    fg_source: Option<ColorOpacity>,
    scale: u8,
)
    ensures
        rescaled_style(rescaled_style(s, bg_source, fg_source, scale), bg_source, fg_source, scale)
            == rescaled_style(s, bg_source, fg_source, scale),
{
}

/// Global-rescale idempotence over the whole table: since the rescale
/// changes neither the reverse indices nor the opacity table, a second
/// `update_all_styles_opacity` call with the same scale rescales under the
/// same sources — and leaves every style exactly where the first call put
/// it.
pub proof fn lemma_global_rescale_idempotent_table(
    styles: Map<u64, Style>,
    bg_colors: Seq<u64>,
    bg_index: Map<u64, Seq<u64>>,
    fg_colors: Seq<u64>,
    fg_index: Map<u64, Seq<u64>>,
    opacities: Map<u64, ColorOpacity>,
    scale: u8,
)
    ensures
        globally_rescaled(
            globally_rescaled(styles, bg_colors, bg_index, fg_colors, fg_index, opacities, scale),
            bg_colors,
            bg_index,
            fg_colors,
            fg_index,
            opacities,
            scale,
        ) == globally_rescaled(styles, bg_colors, bg_index, fg_colors, fg_index, opacities, scale),
{
    let once = globally_rescaled(styles, bg_colors, bg_index, fg_colors, fg_index, opacities,
        scale);
    let twice = globally_rescaled(once, bg_colors, bg_index, fg_colors, fg_index, opacities,
        scale);
    assert forall|id: u64| #[trigger] twice.contains_key(id) implies twice[id] == once[id] by {
        lemma_global_rescale_idempotent(
            styles[id],
            rescale_source(bg_colors, bg_index, opacities, id),
            rescale_source(fg_colors, fg_index, opacities, id),
            scale,
        );
    }
    assert(twice =~= once);
}

} // verus!
