//! The style registry: the identifier-to-style table, the per-color opacity
//! table, and the two reverse indices from colors to the style identifiers
//! using them as background or foreground.
//!
//! The registry recomputes stored styles eagerly: a style is adjusted when it
//! is defined, and re-adjusted whenever the opacity of a color it is indexed
//! under changes, so that reads never see a style that misses a configured
//! opacity.

use vstd::prelude::*;

use crate::style::ColorOpacity;
use crate::style::Style;
use crate::style::adjusted_for_set;
use crate::style::with_background_opacity;
use crate::style::with_foreground_opacity;

verus! {

broadcast use vstd::std_specs::hash::group_hash_axioms;

/// One reverse-index entry: a color and the style identifiers recorded
/// against it, in the order they were recorded.
struct ColorStyleIds {
    color: u64,
    style_ids: Vec<u64>,
}

/// No color occurs in two entries.
spec fn distinct_colors(entries: Seq<ColorStyleIds>) -> bool {
    forall|i: int, j: int|
        0 <= i < j < entries.len() ==> entries[i].color != entries[j].color
}

/// Whether some entry carries this color.
spec fn has_color(entries: Seq<ColorStyleIds>, color: u64) -> bool {
    exists|i: int| 0 <= i < entries.len() && entries[i].color == color
}

/// The identifiers recorded against a color: those of its first entry, or
/// empty where no entry carries it.
spec fn ids_for(entries: Seq<ColorStyleIds>, color: u64) -> Seq<u64>
    decreases entries.len(),
{
    if entries.len() == 0 {
        Seq::empty()
    } else if entries[0].color == color {
        entries[0].style_ids@
    } else {
        ids_for(entries.drop_first(), color)
    }
}

/// The colors of the entries, in entry order.
spec fn entry_colors(entries: Seq<ColorStyleIds>) -> Seq<u64> {
    entries.map(|i: int, e: ColorStyleIds| e.color)
}

/// The index as a map from each carried color to its identifiers.
spec fn index_of(entries: Seq<ColorStyleIds>) -> Map<u64, Seq<u64>> {
    Map::new(|c: u64| has_color(entries, c), |c: u64| ids_for(entries, c))
}

/// The identifiers an index records against a color: its entry in the index
/// map, or empty where the color has no entry.
pub open spec fn recorded_ids(index: Map<u64, Seq<u64>>, color: u64) -> Seq<u64> {
    if index.contains_key(color) {
        index[color]
    } else {
        Seq::empty()
    }
}

/// What an index map records for a color is what `ids_for` yields for it.
proof fn lemma_recorded_ids(entries: Seq<ColorStyleIds>, c: u64)
    ensures
        recorded_ids(index_of(entries), c) == ids_for(entries, c),
{
    if !has_color(entries, c) {
        lemma_ids_for_absent(entries, c);
    }
}

/// The identifiers of the entry at position `i` are what `ids_for` yields for
/// that entry's color, since no earlier entry shares it.
proof fn lemma_ids_for_at(entries: Seq<ColorStyleIds>, i: int)
    requires
        distinct_colors(entries),
        0 <= i < entries.len(),
    ensures
        ids_for(entries, entries[i].color) == entries[i].style_ids@,
    decreases i,
{
    if i > 0 {
        assert(entries[0].color != entries[i].color);
        assert(distinct_colors(entries.drop_first())) by {
            assert(forall|p: int, q: int|
                0 <= p < q < entries.drop_first().len() ==> entries.drop_first()[p]
                    == entries[p + 1] && entries.drop_first()[q] == entries[q + 1]);
        }
        assert(entries.drop_first()[i - 1] == entries[i]);
        lemma_ids_for_at(entries.drop_first(), i - 1);
    }
}

/// A color carried by no entry has no recorded identifiers.
proof fn lemma_ids_for_absent(entries: Seq<ColorStyleIds>, color: u64)
    requires
        !has_color(entries, color),
    ensures
        ids_for(entries, color) == Seq::<u64>::empty(),
    decreases entries.len(),
{
    if entries.len() > 0 {
        assert(entries[0].color != color);
        assert(!has_color(entries.drop_first(), color)) by {
            assert(forall|j: int|
                0 <= j < entries.drop_first().len() ==> entries.drop_first()[j]
                    == entries[j + 1]);
        }
        lemma_ids_for_absent(entries.drop_first(), color);
    }
}

/// Replacing the entry at `i` with one of the same color changes only that
/// color's recorded identifiers.
proof fn lemma_ids_for_update(entries: Seq<ColorStyleIds>, i: int, e: ColorStyleIds, c: u64)
    requires
        distinct_colors(entries),
        0 <= i < entries.len(),
        e.color == entries[i].color,
    ensures
        ids_for(entries.update(i, e), c) == if c == e.color {
            e.style_ids@
        } else {
            ids_for(entries, c)
        },
    decreases i,
{
    let updated = entries.update(i, e);
    if i == 0 {
        assert(updated[0] == e);
        assert(updated.drop_first() =~= entries.drop_first());
    } else {
        assert(updated[0] == entries[0]);
        assert(entries[0].color != e.color);
        assert(distinct_colors(entries.drop_first())) by {
            assert(forall|p: int, q: int|
                0 <= p < q < entries.drop_first().len() ==> entries.drop_first()[p]
                    == entries[p + 1] && entries.drop_first()[q] == entries[q + 1]);
        }
        assert(entries.drop_first()[i - 1] == entries[i]);
        lemma_ids_for_update(entries.drop_first(), i - 1, e, c);
        assert(updated.drop_first() =~= entries.drop_first().update(i - 1, e));
    }
}

/// Appending an entry for a fresh color changes only that color's recorded
/// identifiers.
proof fn lemma_ids_for_push(entries: Seq<ColorStyleIds>, e: ColorStyleIds, c: u64)
    requires
        !has_color(entries, e.color),
    ensures
        ids_for(entries.push(e), c) == if c == e.color {
            e.style_ids@
        } else {
            ids_for(entries, c)
        },
    decreases entries.len(),
{
    let pushed = entries.push(e);
    if entries.len() == 0 {
        assert(pushed[0] == e);
        if c == e.color {
            assert(ids_for(pushed, c) == e.style_ids@);
        } else {
            assert(pushed.drop_first() =~= Seq::<ColorStyleIds>::empty());
            assert(ids_for(pushed, c) == ids_for(pushed.drop_first(), c));
            assert(ids_for(pushed, c) == Seq::<u64>::empty());
            assert(ids_for(entries, c) == Seq::<u64>::empty());
        }
    } else {
        assert(pushed[0] == entries[0]);
        assert(entries[0].color != e.color);
        assert(!has_color(entries.drop_first(), e.color)) by {
            assert(forall|j: int|
                0 <= j < entries.drop_first().len() ==> entries.drop_first()[j]
                    == entries[j + 1]);
        }
        lemma_ids_for_push(entries.drop_first(), e, c);
        assert(pushed.drop_first() =~= entries.drop_first().push(e));
        if c == entries[0].color {
            assert(ids_for(pushed, c) == pushed[0].style_ids@);
            assert(ids_for(entries, c) == entries[0].style_ids@);
        } else {
            assert(ids_for(pushed, c) == ids_for(pushed.drop_first(), c));
            assert(ids_for(entries, c) == ids_for(entries.drop_first(), c));
        }
    }
}

/// Record `id` against `color`: extend the color's entry, or append a fresh
/// entry where the color has none. Entry order, and so color precedence, is
/// otherwise preserved.
fn push_id(entries: &mut Vec<ColorStyleIds>, color: u64, id: u64)
    requires
        distinct_colors(old(entries)@),
    ensures
        distinct_colors(final(entries)@),
        entry_colors(final(entries)@) == if has_color(old(entries)@, color) {
            entry_colors(old(entries)@)
        } else {
            entry_colors(old(entries)@).push(color)
        },
        index_of(final(entries)@) == index_of(old(entries)@).insert(
            color,
            ids_for(old(entries)@, color).push(id),
        ),
{
    let ghost entries0 = old(entries)@;
    let n = entries.len();
    let mut i: usize = 0;
    while i < n
        invariant
            entries0 == old(entries)@,
            entries@ == entries0,
            distinct_colors(entries0),
            i <= n,
            n == entries0.len(),
            forall|j: int| 0 <= j < i ==> entries0[j].color != color,
        decreases n - i,
    {
        if entries[i].color == color {
            let mut entry = entries.remove(i);
            entry.style_ids.push(id);
            let ghost e = entry;
            entries.insert(i, entry);
            proof {
                assert(entries@ =~= entries0.update(i as int, e));
                lemma_ids_for_at(entries0, i as int);
                assert forall|c: u64| #[trigger] ids_for(entries@, c) == if c == color {
                    ids_for(entries0, color).push(id)
                } else {
                    ids_for(entries0, c)
                } by {
                    lemma_ids_for_update(entries0, i as int, e, c);
                }
                assert(forall|p: int|
                    0 <= p < entries@.len() ==> (#[trigger] entries@[p]).color
                        == entries0[p].color);
                assert(entry_colors(entries@) =~= entry_colors(entries0));
                assert(has_color(entries0, color));
                assert forall|c: u64| has_color(entries@, c) == has_color(entries0, c) by {
                    if has_color(entries@, c) {
                        let w = choose|w: int|
                            0 <= w < entries@.len() && entries@[w].color == c;
                        assert(entries0[w].color == c);
                    }
                    if has_color(entries0, c) {
                        let w = choose|w: int|
                            0 <= w < entries0.len() && entries0[w].color == c;
                        assert(entries@[w].color == c);
                    }
                }
                assert(index_of(entries@) =~= index_of(entries0).insert(
                    color,
                    ids_for(entries0, color).push(id),
                ));
            }
            return;
        }
        i += 1;
    }
    let mut fresh_ids: Vec<u64> = Vec::new();
    fresh_ids.push(id);
    let fresh = ColorStyleIds { color, style_ids: fresh_ids };
    let ghost e = fresh;
    entries.push(fresh);
    proof {
        assert(!has_color(entries0, color));
        lemma_ids_for_absent(entries0, color);
        assert(entries@ =~= entries0.push(e));
        assert forall|c: u64| #[trigger] ids_for(entries@, c) == if c == color {
            ids_for(entries0, color).push(id)
        } else {
            ids_for(entries0, c)
        } by {
            lemma_ids_for_push(entries0, e, c);
            assert(e.style_ids@ =~= ids_for(entries0, color).push(id));
        }
        assert(forall|p: int|
            0 <= p < entries0.len() ==> (#[trigger] entries@[p]).color == entries0[p].color);
        assert(entries@[entries0.len() as int].color == color);
        assert(entry_colors(entries@) =~= entry_colors(entries0).push(color));
        assert forall|c: u64| has_color(entries@, c) == (has_color(entries0, c) || c
            == color) by {
            if has_color(entries@, c) && c != color {
                let w = choose|w: int| 0 <= w < entries@.len() && entries@[w].color == c;
                assert(w < entries0.len());
                assert(entries0[w].color == c);
            }
            if has_color(entries0, c) {
                let w = choose|w: int| 0 <= w < entries0.len() && entries0[w].color == c;
                assert(entries@[w].color == c);
            }
        }
        assert(index_of(entries@) =~= index_of(entries0).insert(
            color,
            ids_for(entries0, color).push(id),
        ));
    }
}

/// The style after one opacity pass over the named side.
pub open spec fn with_side_opacity(s: Style, o: ColorOpacity, scale: u8, background: bool) -> Style {
    if background {
        with_background_opacity(s, o, scale)
    } else {
        with_foreground_opacity(s, o, scale)
    }
}

/// The style after the single-color update: a background pass where the
/// style's identifier is recorded against the color as background, then a
/// foreground pass where it is recorded as foreground.
pub open spec fn opacity_update(
    s: Style,
    in_background: bool,
    in_foreground: bool,
    o: ColorOpacity,
    scale: u8,
) -> Style {
    let after_bg = if in_background {
        with_background_opacity(s, o, scale)
    } else {
        s
    };
    if in_foreground {
        with_foreground_opacity(after_bg, o, scale)
    } else {
        after_bg
    }
}

/// A fresh copy of the identifiers recorded against `color`.
fn ids_for_color(entries: &Vec<ColorStyleIds>, color: u64) -> (out: Vec<u64>)
    requires
        distinct_colors(entries@),
    ensures
        out@ == ids_for(entries@, color),
{
    let n = entries.len();
    let mut pos: usize = n;
    let mut i: usize = 0;
    while i < n
        invariant
            i <= n,
            n == entries@.len(),
            pos <= n,
            pos == n ==> forall|j: int| 0 <= j < i ==> entries@[j].color != color,
            pos < n ==> entries@[pos as int].color == color,
        decreases n - i,
    {
        if entries[i].color == color && pos == n {
            pos = i;
        }
        i += 1;
    }
    if pos == n {
        proof {
            assert(!has_color(entries@, color));
            lemma_ids_for_absent(entries@, color);
        }
        let out: Vec<u64> = Vec::new();
        out
    } else {
        let src = &entries[pos].style_ids;
        let m = src.len();
        let mut out: Vec<u64> = Vec::new();
        let mut k: usize = 0;
        while k < m
            invariant
                k <= m,
                m == src@.len(),
                src@ == entries@[pos as int].style_ids@,
                out@ == src@.take(k as int),
            decreases m - k,
        {
            out.push(src[k]);
            proof {
                assert(out@ =~= src@.take(k as int + 1));
            }
            k += 1;
        }
        proof {
            lemma_ids_for_at(entries@, pos as int);
            assert(out@ =~= src@);
        }
        out
    }
}

/// One pass of the single-color update: every identifier in `ids` that has a
/// stored style gets that style's named side recomputed from
/// `color_opacity` and `default_opacity`; unknown identifiers are skipped.
fn apply_opacity_by_index(
    styles: &mut std::collections::HashMap<u64, Style>,
    ids: &Vec<u64>,
    background: bool,
    color_opacity: &ColorOpacity,
    default_opacity: u8,
)
    ensures
        final(styles)@.dom() == old(styles)@.dom(),
        forall|id: u64| #[trigger] old(styles)@.contains_key(id) ==> final(styles)@[id]
            == if ids@.contains(id) {
            with_side_opacity(old(styles)@[id], *color_opacity, default_opacity, background)
        } else {
            old(styles)@[id]
        },
{
    let ghost styles0 = old(styles)@;
    let n = ids.len();
    let mut k: usize = 0;
    while k < n
        invariant
            styles0 == old(styles)@,
            k <= n,
            n == ids@.len(),
            styles@.dom() == styles0.dom(),
            forall|id: u64| #[trigger] styles0.contains_key(id) ==> styles@[id]
                == if ids@.take(k as int).contains(id) {
                with_side_opacity(styles0[id], *color_opacity, default_opacity, background)
            } else {
                styles0[id]
            },
        decreases n - k,
    {
        let id = ids[k];
        let ghost before = styles@;
        match styles.get(&id) {
            Some(style_ref) => {
                let mut style = *style_ref;
                if background {
                    style.set_background_opacity(color_opacity, default_opacity);
                } else {
                    style.set_foreground_opacity(color_opacity, default_opacity);
                }
                styles.insert(id, style);
                proof {
                    assert(styles@ == before.insert(
                        id,
                        with_side_opacity(before[id], *color_opacity, default_opacity, background),
                    ));
                }
            },
            None => {},
        }
        proof {
            assert(ids@.take(k as int + 1) =~= ids@.take(k as int).push(ids@[k as int]));
            assert forall|id2: u64| #[trigger] styles0.contains_key(id2) implies styles@[id2]
                == if ids@.take(k as int + 1).contains(id2) {
                with_side_opacity(styles0[id2], *color_opacity, default_opacity, background)
            } else {
                styles0[id2]
            } by {
                if id2 == id && styles0.contains_key(id) {
                    assert(before.contains_key(id));
                    assert(ids@.take(k as int + 1).contains(id)) by {
                        assert(ids@.take(k as int + 1).last() == id);
                    }
                    if ids@.take(k as int).contains(id) {
                        assert(before[id] == with_side_opacity(
                            styles0[id],
                            *color_opacity,
                            default_opacity,
                            background,
                        ));
                    } else {
                        assert(before[id] == styles0[id]);
                    }
                } else {
                    assert(styles@[id2] == before[id2]);
                    assert(ids@.take(k as int + 1).contains(id2) == ids@.take(
                        k as int,
                    ).contains(id2));
                }
            }
        }
        k += 1;
    }
    proof {
        assert(ids@.take(n as int) =~= ids@);
    }
}

/// The opacity the global rescale recomputes a side from, for one style
/// identifier: the opacity of the last color, in index order, that both has a
/// configured opacity and records the identifier — or `None` where no such
/// color exists. The last such color decides because its write is the last
/// applied.
pub open spec fn rescale_source(
    colors: Seq<u64>,
    index: Map<u64, Seq<u64>>,
    opacities: Map<u64, ColorOpacity>,
    id: u64,
) -> Option<ColorOpacity>
    decreases colors.len(),
{
    if colors.len() == 0 {
        None
    } else {
        match rescale_source(colors.drop_first(), index, opacities, id) {
            Some(o) => Some(o),
            None => {
                if opacities.contains_key(colors[0]) && recorded_ids(index, colors[0]).contains(
                    id,
                ) {
                    Some(opacities[colors[0]])
                } else {
                    None
                }
            },
        }
    }
}

/// The style after the global rescale: each side with a source is
/// recomputed from that source at the new scale, so a style hit on both
/// sides ends with both sides recomputed — the two passes touch disjoint
/// fields and neither write may undo the other.
pub open spec fn rescaled_style(
    s: Style,
    bg_source: Option<ColorOpacity>,
    fg_source: Option<ColorOpacity>,
    scale: u8,
) -> Style {
    let after_bg = match bg_source {
        Some(o) => with_background_opacity(s, o, scale),
        None => s,
    };
    match fg_source {
        Some(o) => with_foreground_opacity(after_bg, o, scale),
        None => after_bg,
    }
}

/// The whole table after a global rescale: every stored style replaced by
/// its rescaled form, under the sources the two indices and the opacity
/// table give it.
pub open spec fn globally_rescaled(
    styles: Map<u64, Style>,
    bg_colors: Seq<u64>,
    bg_index: Map<u64, Seq<u64>>,
    fg_colors: Seq<u64>,
    fg_index: Map<u64, Seq<u64>>,
    opacities: Map<u64, ColorOpacity>,
    scale: u8,
) -> Map<u64, Style> {
    Map::new(
        |id: u64| styles.contains_key(id),
        |id: u64|
            rescaled_style(
                styles[id],
                rescale_source(bg_colors, bg_index, opacities, id),
                rescale_source(fg_colors, fg_index, opacities, id),
                scale,
            ),
    )
}

/// The writes one color's identifier list contributes to a rescale pass, in
/// list order: identifiers without a stored style contribute nothing.
spec fn writes_for_ids(
    ids: Seq<u64>,
    styles: Map<u64, Style>,
    o: ColorOpacity,
    background: bool,
    scale: u8,
) -> Seq<(u64, Style)>
    decreases ids.len(),
{
    if ids.len() == 0 {
        Seq::empty()
    } else {
        let head: Seq<(u64, Style)> = if styles.contains_key(ids[0]) {
            seq![(ids[0], with_side_opacity(styles[ids[0]], o, scale, background))]
        } else {
            Seq::empty()
        };
        head + writes_for_ids(ids.drop_first(), styles, o, background, scale)
    }
}

/// The writes one rescale pass collects, in entry order: colors without a
/// configured opacity contribute nothing.
spec fn collected_writes(
    entries: Seq<ColorStyleIds>,
    styles: Map<u64, Style>,
    opacities: Map<u64, ColorOpacity>,
    background: bool,
    scale: u8,
) -> Seq<(u64, Style)>
    decreases entries.len(),
{
    if entries.len() == 0 {
        Seq::empty()
    } else {
        let head: Seq<(u64, Style)> = if opacities.contains_key(entries[0].color) {
            writes_for_ids(
                entries[0].style_ids@,
                styles,
                opacities[entries[0].color],
                background,
                scale,
            )
        } else {
            Seq::empty()
        };
        head + collected_writes(entries.drop_first(), styles, opacities, background, scale)
    }
}

/// The table after a list of writes lands in order.
spec fn apply_writes(m: Map<u64, Style>, writes: Seq<(u64, Style)>) -> Map<u64, Style>
    decreases writes.len(),
{
    if writes.len() == 0 {
        m
    } else {
        apply_writes(m.insert(writes[0].0, writes[0].1), writes.drop_first())
    }
}

/// Applying concatenated writes is applying each run in turn.
proof fn lemma_apply_writes_concat(m: Map<u64, Style>, a: Seq<(u64, Style)>, b: Seq<(u64, Style)>)
    ensures
        apply_writes(m, a + b) == apply_writes(apply_writes(m, a), b),
    decreases a.len(),
{
    if a.len() == 0 {
        assert(a + b =~= b);
    } else {
        assert((a + b)[0] == a[0]);
        assert((a + b).drop_first() =~= a.drop_first() + b);
        lemma_apply_writes_concat(m.insert(a[0].0, a[0].1), a.drop_first(), b);
    }
}

/// What one color's writes do to the table, at one identifier: every
/// identifier in the list that has a stored style ends at the recomputed
/// style; everything else keeps its prior value.
proof fn lemma_writes_for_ids_apply(
    m: Map<u64, Style>,
    ids: Seq<u64>,
    styles0: Map<u64, Style>,
    o: ColorOpacity,
    background: bool,
    scale: u8,
    id: u64,
)
    ensures
        ({
            let r = apply_writes(m, writes_for_ids(ids, styles0, o, background, scale));
            &&& r.contains_key(id) <==> (m.contains_key(id) || (styles0.contains_key(id)
                && ids.contains(id)))
            &&& (r.contains_key(id) ==> r[id] == if styles0.contains_key(id) && ids.contains(id) {
                with_side_opacity(styles0[id], o, scale, background)
            } else {
                m[id]
            })
        }),
    decreases ids.len(),
{
    if ids.len() > 0 {
        let w = writes_for_ids(ids, styles0, o, background, scale);
        let rest = writes_for_ids(ids.drop_first(), styles0, o, background, scale);
        if styles0.contains_key(ids[0]) {
            let head = seq![(ids[0], with_side_opacity(styles0[ids[0]], o, scale, background))];
            assert(w == head + rest);
            assert((head + rest)[0] == head[0]);
            assert((head + rest).drop_first() =~= rest);
            let m1 = m.insert(ids[0], with_side_opacity(styles0[ids[0]], o, scale, background));
            assert(apply_writes(m, w) == apply_writes(m1, rest));
            lemma_writes_for_ids_apply(m1, ids.drop_first(), styles0, o, background, scale, id);
            assert(ids.contains(ids[0]));
            if id != ids[0] && ids.contains(id) {
                assert(ids.drop_first().contains(id)) by {
                    let w2 = choose|w2: int| 0 <= w2 < ids.len() && ids[w2] == id;
                    assert(ids.drop_first()[w2 - 1] == id);
                }
            }
            if ids.drop_first().contains(id) {
                assert(ids.contains(id)) by {
                    let w2 = choose|w2: int|
                        0 <= w2 < ids.drop_first().len() && ids.drop_first()[w2] == id;
                    assert(ids[w2 + 1] == id);
                }
            }
        } else {
            assert(w =~= rest);
            lemma_writes_for_ids_apply(m, ids.drop_first(), styles0, o, background, scale, id);
            if id != ids[0] && ids.contains(id) {
                assert(ids.drop_first().contains(id)) by {
                    let w2 = choose|w2: int| 0 <= w2 < ids.len() && ids[w2] == id;
                    assert(ids.drop_first()[w2 - 1] == id);
                }
            }
            if ids.drop_first().contains(id) {
                assert(ids.contains(id)) by {
                    let w2 = choose|w2: int|
                        0 <= w2 < ids.drop_first().len() && ids.drop_first()[w2] == id;
                    assert(ids[w2 + 1] == id);
                }
            }
        }
    }
}

/// `rescale_source` reads the index only at the colors of the list.
proof fn lemma_rescale_source_agree(
    colors: Seq<u64>,
    index1: Map<u64, Seq<u64>>,
    index2: Map<u64, Seq<u64>>,
    opacities: Map<u64, ColorOpacity>,
    id: u64,
)
    requires
        forall|c: u64| colors.contains(c) ==> recorded_ids(index1, c) == recorded_ids(index2, c),
    ensures
        rescale_source(colors, index1, opacities, id) == rescale_source(
            colors,
            index2,
            opacities,
            id,
        ),
    decreases colors.len(),
{
    if colors.len() > 0 {
        assert(colors.contains(colors[0]));
        assert forall|c: u64| colors.drop_first().contains(c) implies recorded_ids(index1, c)
            == recorded_ids(index2, c) by {
            let w = choose|w: int|
                0 <= w < colors.drop_first().len() && colors.drop_first()[w] == c;
            assert(colors[w + 1] == c);
        }
        lemma_rescale_source_agree(colors.drop_first(), index1, index2, opacities, id);
    }
}

/// What one rescale pass does to the table, at one identifier: the last
/// color, in entry order, with a configured opacity and the identifier in
/// its list decides the new style, computed from the pre-collection table
/// `styles0`; identifiers no such color records keep their prior value.
proof fn lemma_collected_apply(
    m: Map<u64, Style>,
    entries: Seq<ColorStyleIds>,
    styles0: Map<u64, Style>,
    opacities: Map<u64, ColorOpacity>,
    background: bool,
    scale: u8,
    id: u64,
)
    requires
        distinct_colors(entries),
    ensures
        ({
            let r = apply_writes(
                m,
                collected_writes(entries, styles0, opacities, background, scale),
            );
            let src = rescale_source(entry_colors(entries), index_of(entries), opacities, id);
            &&& r.contains_key(id) <==> (m.contains_key(id) || (styles0.contains_key(id)
                && src is Some))
            &&& (r.contains_key(id) ==> r[id] == match src {
                Some(o) => if styles0.contains_key(id) {
                    with_side_opacity(styles0[id], o, scale, background)
                } else {
                    m[id]
                },
                None => m[id],
            })
        }),
    decreases entries.len(),
{
    let w = collected_writes(entries, styles0, opacities, background, scale);
    let colors = entry_colors(entries);
    if entries.len() == 0 {
        assert(colors.len() == 0);
    } else {
        let e0 = entries[0];
        let rest = entries.drop_first();
        let rest_w = collected_writes(rest, styles0, opacities, background, scale);
        let head: Seq<(u64, Style)> = if opacities.contains_key(e0.color) {
            writes_for_ids(e0.style_ids@, styles0, opacities[e0.color], background, scale)
        } else {
            Seq::empty()
        };
        assert(w == head + rest_w);
        lemma_apply_writes_concat(m, head, rest_w);
        let m1 = apply_writes(m, head);
        assert(apply_writes(m, w) == apply_writes(m1, rest_w));

        // The head's effect on `id`.
        if opacities.contains_key(e0.color) {
            lemma_writes_for_ids_apply(
                m,
                e0.style_ids@,
                styles0,
                opacities[e0.color],
                background,
                scale,
                id,
            );
        } else {
            assert(head =~= Seq::<(u64, Style)>::empty());
            assert(m1 == m);
        }

        // The rest's effect, stated over the tail's own index.
        assert(distinct_colors(rest)) by {
            assert(forall|p: int, q: int|
                0 <= p < q < rest.len() ==> rest[p] == entries[p + 1] && rest[q] == entries[q
                    + 1]);
        }
        lemma_collected_apply(m1, rest, styles0, opacities, background, scale, id);

        // The tail's index agrees with the full one on the tail's colors.
        assert(colors.drop_first() =~= entry_colors(rest));
        assert forall|c: u64| entry_colors(rest).contains(c) implies recorded_ids(
            index_of(rest),
            c,
        ) == recorded_ids(index_of(entries), c) by {
            let p = choose|p: int|
                0 <= p < entry_colors(rest).len() && entry_colors(rest)[p] == c;
            assert(rest[p].color == c);
            assert(entries[p + 1].color == c);
            assert(e0.color != c);
            assert(has_color(rest, c));
            assert(has_color(entries, c));
            assert(ids_for(entries, c) == ids_for(rest, c));
        }
        lemma_rescale_source_agree(
            entry_colors(rest),
            index_of(rest),
            index_of(entries),
            opacities,
            id,
        );

        // The full source unfolds to: the tail's source, or else the head.
        assert(colors[0] == e0.color);
        assert(has_color(entries, e0.color)) by {
            assert(entries[0].color == e0.color);
        }
        assert(recorded_ids(index_of(entries), e0.color) == e0.style_ids@);
    }
}

/// Collect one rescale pass without touching the table: for each color with
/// a configured opacity, in entry order, the recomputed style of every
/// identifier in its list that has a stored style.
fn collect_updates(
    entries: &Vec<ColorStyleIds>,
    styles: &std::collections::HashMap<u64, Style>,
    opacities: &std::collections::HashMap<u64, ColorOpacity>,
    background: bool,
    default_opacity: u8,
) -> (out: Vec<(u64, Style)>)
    ensures
        out@ == collected_writes(entries@, styles@, opacities@, background, default_opacity),
{
    let ghost target = collected_writes(entries@, styles@, opacities@, background,
        default_opacity);
    let mut out: Vec<(u64, Style)> = Vec::new();
    let n = entries.len();
    proof {
        assert(entries@.skip(0) =~= entries@);
        assert(out@ + collected_writes(entries@.skip(0), styles@, opacities@, background,
            default_opacity) =~= collected_writes(entries@, styles@, opacities@, background,
            default_opacity));
    }
    let mut i: usize = 0;
    while i < n
        invariant
            i <= n,
            n == entries@.len(),
            target == collected_writes(entries@, styles@, opacities@, background,
                default_opacity),
            out@ + collected_writes(entries@.skip(i as int), styles@, opacities@, background,
                default_opacity) == target,
        decreases n - i,
    {
        proof {
            assert(entries@.skip(i as int)[0] == entries@[i as int]);
            assert(entries@.skip(i as int).drop_first() =~= entries@.skip(i as int + 1));
        }
        let entry = &entries[i];
        match opacities.get(&entry.color) {
            Some(color_opacity) => {
                let ghost o = *color_opacity;
                let ghost ids = entry.style_ids@;
                let ghost rest = collected_writes(entries@.skip(i as int + 1), styles@,
                    opacities@, background, default_opacity);
                proof {
                    assert(out@ + (writes_for_ids(ids, styles@, o, background, default_opacity)
                        + rest) == target);
                    assert(ids.skip(0) =~= ids);
                    assert(out@ + (writes_for_ids(ids.skip(0), styles@, o, background,
                        default_opacity) + rest) == target);
                }
                let m = entry.style_ids.len();
                let mut j: usize = 0;
                while j < m
                    invariant
                        j <= m,
                        m == ids.len(),
                        ids == entry.style_ids@,
                        o == *color_opacity,
                        out@ + (writes_for_ids(ids.skip(j as int), styles@, o, background,
                            default_opacity) + rest) == target,
                    decreases m - j,
                {
                    proof {
                        assert(ids.skip(j as int)[0] == ids[j as int]);
                        assert(ids.skip(j as int).drop_first() =~= ids.skip(j as int + 1));
                    }
                    let id = entry.style_ids[j];
                    match styles.get(&id) {
                        Some(style_ref) => {
                            let mut style = *style_ref;
                            if background {
                                style.set_background_opacity(color_opacity, default_opacity);
                            } else {
                                style.set_foreground_opacity(color_opacity, default_opacity);
                            }
                            let ghost out_before = out@;
                            out.push((id, style));
                            proof {
                                let head = seq![
                                    (id, with_side_opacity(styles@[id], o, default_opacity, background)),
                                ];
                                assert(writes_for_ids(ids.skip(j as int), styles@, o, background,
                                    default_opacity) == head + writes_for_ids(
                                    ids.skip(j as int + 1),
                                    styles@,
                                    o,
                                    background,
                                    default_opacity,
                                ));
                                assert(out@ =~= out_before + head);
                                assert(out@ + (writes_for_ids(ids.skip(j as int + 1), styles@, o,
                                    background, default_opacity) + rest) =~= out_before + (
                                writes_for_ids(ids.skip(j as int), styles@, o, background,
                                    default_opacity) + rest));
                            }
                        },
                        None => {
                            proof {
                                assert(writes_for_ids(ids.skip(j as int), styles@, o, background,
                                    default_opacity) =~= writes_for_ids(ids.skip(j as int + 1),
                                    styles@, o, background, default_opacity));
                            }
                        },
                    }
                    j += 1;
                }
                proof {
                    assert(ids.skip(m as int) =~= Seq::<u64>::empty());
                    assert(writes_for_ids(ids.skip(m as int), styles@, o, background,
                        default_opacity) =~= Seq::<(u64, Style)>::empty());
                    assert(out@ + (Seq::<(u64, Style)>::empty() + rest) =~= out@ + rest);
                    assert(out@ + collected_writes(entries@.skip(i as int + 1), styles@,
                        opacities@, background, default_opacity) == target);
                }
            },
            None => {
                proof {
                    assert(collected_writes(entries@.skip(i as int), styles@, opacities@,
                        background, default_opacity) =~= collected_writes(
                        entries@.skip(i as int + 1),
                        styles@,
                        opacities@,
                        background,
                        default_opacity,
                    ));
                }
            },
        }
        i += 1;
    }
    proof {
        assert(entries@.skip(n as int) =~= Seq::<ColorStyleIds>::empty());
        assert(out@ + Seq::<(u64, Style)>::empty() =~= out@);
    }
    out
}

/// Land collected writes on the table, in order.
fn write_back(styles: &mut std::collections::HashMap<u64, Style>, writes: &Vec<(u64, Style)>)
    ensures
        final(styles)@ == apply_writes(old(styles)@, writes@),
{
    let ghost target = apply_writes(old(styles)@, writes@);
    let n = writes.len();
    proof {
        assert(writes@.skip(0) =~= writes@);
    }
    let mut k: usize = 0;
    while k < n
        invariant
            k <= n,
            n == writes@.len(),
            target == apply_writes(old(styles)@, writes@),
            apply_writes(styles@, writes@.skip(k as int)) == target,
        decreases n - k,
    {
        proof {
            assert(writes@.skip(k as int)[0] == writes@[k as int]);
            assert(writes@.skip(k as int).drop_first() =~= writes@.skip(k as int + 1));
        }
        let id = writes[k].0;
        let style = writes[k].1;
        styles.insert(id, style);
        k += 1;
    }
    proof {
        assert(writes@.skip(n as int) =~= Seq::<(u64, Style)>::empty());
    }
}

/// The registry. All mutation goes through `set_style`, `set_opacity` and
/// `update_all_styles_opacity`; reads go through `default_style` and
/// `defined_styles`.
pub struct StyleRegistry {
    /// Maps style identifiers to their current styles.
    defined_styles: std::collections::HashMap<u64, Style>,
    /// The opacity configured for each color, independent of any one style.
    defined_opacities: std::collections::HashMap<u64, ColorOpacity>,
    /// Maps background colors to the style identifiers recorded against them.
    background_color_style_map: Vec<ColorStyleIds>,
    /// Maps foreground colors to the style identifiers recorded against them.
    foreground_color_style_map: Vec<ColorStyleIds>,
}

impl StyleRegistry {
    /// The identifier-to-style table.
    pub closed spec fn styles(self) -> Map<u64, Style> {
        self.defined_styles@
    }

    /// The per-color opacity table.
    pub closed spec fn opacities(self) -> Map<u64, ColorOpacity> {
        self.defined_opacities@
    }

    /// The colors with a background reverse-index entry, oldest first.
    pub closed spec fn background_colors(self) -> Seq<u64> {
        entry_colors(self.background_color_style_map@)
    }

    /// The background reverse index: color to recorded style identifiers.
    pub closed spec fn background_index(self) -> Map<u64, Seq<u64>> {
        index_of(self.background_color_style_map@)
    }

    /// The colors with a foreground reverse-index entry, oldest first.
    pub closed spec fn foreground_colors(self) -> Seq<u64> {
        entry_colors(self.foreground_color_style_map@)
    }

    /// The foreground reverse index: color to recorded style identifiers.
    pub closed spec fn foreground_index(self) -> Map<u64, Seq<u64>> {
        index_of(self.foreground_color_style_map@)
    }

    /// Well-formedness: each reverse index holds at most one entry per color.
    /// `new` establishes it and every method preserves it.
    pub closed spec fn wf(self) -> bool {
        &&& distinct_colors(self.background_color_style_map@)
        &&& distinct_colors(self.foreground_color_style_map@)
    }

    /// A registry with all four tables empty.
    pub fn new() -> (r: StyleRegistry)
        ensures
            r.wf(),
            r.styles() == Map::<u64, Style>::empty(),
            r.opacities() == Map::<u64, ColorOpacity>::empty(),
            r.background_colors() == Seq::<u64>::empty(),
            r.foreground_colors() == Seq::<u64>::empty(),
            r.background_index() == Map::<u64, Seq<u64>>::empty(),
            r.foreground_index() == Map::<u64, Seq<u64>>::empty(),
    {
        let r = StyleRegistry {
            defined_styles: std::collections::HashMap::new(),
            defined_opacities: std::collections::HashMap::new(),
            background_color_style_map: Vec::new(),
            foreground_color_style_map: Vec::new(),
        };
        proof {
            assert(r.background_colors() =~= Seq::<u64>::empty());
            assert(r.foreground_colors() =~= Seq::<u64>::empty());
            assert(r.background_index() =~= Map::<u64, Seq<u64>>::empty());
            assert(r.foreground_index() =~= Map::<u64, Seq<u64>>::empty());
        }
        r
    }

    /// The style stored under identifier 0, the reserved default-style slot,
    /// or `None` while nothing has been stored there.
    pub fn default_style(&self) -> (r: Option<Style>)
        ensures
            r == if self.styles().contains_key(0) {
                Some(self.styles()[0])
            } else {
                None::<Style>
            },
    {
        match self.defined_styles.get(&0) {
            Some(style) => Some(*style),
            None => None,
        }
    }

    /// Read-only view over the full identifier-to-style table.
    pub fn defined_styles(&self) -> (r: &std::collections::HashMap<u64, Style>)
        ensures
            r@ == self.styles(),
    {
        &self.defined_styles
    }

    /// Store `style` under `id`, replacing any prior value outright. Each
    /// side whose color already has a configured opacity gets that opacity
    /// applied before the store, so the stored style never misses a
    /// configured opacity. The style's colors are recorded in the reverse
    /// indices; entries recorded for earlier definitions under `id` remain.
    pub fn set_style(&mut self, style: Style, id: u64, default_opacity: u8)
        requires
            old(self).wf(),
        ensures
            final(self).wf(),
            final(self).styles() == old(self).styles().insert(
                id,
                adjusted_for_set(style, old(self).opacities(), default_opacity),
            ),
            final(self).opacities() == old(self).opacities(),
            final(self).background_colors() == match style.background {
                Some(c) => if old(self).background_index().contains_key(c) {
                    old(self).background_colors()
                } else {
                    old(self).background_colors().push(c)
                },
                None => old(self).background_colors(),
            },
            final(self).background_index() == match style.background {
                Some(c) => old(self).background_index().insert(
                    c,
                    recorded_ids(old(self).background_index(), c).push(id),
                ),
                None => old(self).background_index(),
            },
            final(self).foreground_colors() == match style.foreground {
                Some(c) => if old(self).foreground_index().contains_key(c) {
                    old(self).foreground_colors()
                } else {
                    old(self).foreground_colors().push(c)
                },
                None => old(self).foreground_colors(),
            },
            final(self).foreground_index() == match style.foreground {
                Some(c) => old(self).foreground_index().insert(
                    c,
                    recorded_ids(old(self).foreground_index(), c).push(id),
                ),
                None => old(self).foreground_index(),
            },
    {
        let mut style = style;
        self.update_style_opacities_from_existing_mapping(&mut style, default_opacity);
        self.update_color_to_style_mapping(&style, id);
        self.defined_styles.insert(id, style);
    }

    /// Configure the opacity of a color and update every style whose
    /// identifier is recorded against it: a background pass first, then a
    /// foreground pass, so a style recorded both ways ends with both sides
    /// recomputed. Identifiers with no stored style are skipped, and styles
    /// recorded only against other colors are untouched.
    pub fn set_opacity(&mut self, color: u64, color_opacity: ColorOpacity, default_opacity: u8)
        requires
            old(self).wf(),
        ensures
            final(self).wf(),
            final(self).opacities() == old(self).opacities().insert(color, color_opacity),
            final(self).background_colors() == old(self).background_colors(),
            final(self).background_index() == old(self).background_index(),
            final(self).foreground_colors() == old(self).foreground_colors(),
            final(self).foreground_index() == old(self).foreground_index(),
            final(self).styles().dom() == old(self).styles().dom(),
            forall|id: u64| #[trigger] old(self).styles().contains_key(id)
                ==> final(self).styles()[id] == opacity_update(
                old(self).styles()[id],
                recorded_ids(old(self).background_index(), color).contains(id),
                recorded_ids(old(self).foreground_index(), color).contains(id),
                color_opacity,
                default_opacity,
            ),
    {
        proof {
            lemma_recorded_ids(old(self).background_color_style_map@, color);
            lemma_recorded_ids(old(self).foreground_color_style_map@, color);
        }
        let bg_ids = ids_for_color(&self.background_color_style_map, color);
        apply_opacity_by_index(
            &mut self.defined_styles,
            &bg_ids,
            true,
            &color_opacity,
            default_opacity,
        );
        let fg_ids = ids_for_color(&self.foreground_color_style_map, color);
        apply_opacity_by_index(
            &mut self.defined_styles,
            &fg_ids,
            false,
            &color_opacity,
            default_opacity,
        );
        self.defined_opacities.insert(color, color_opacity);
    }

    /// Rescale every style recorded against a color that has a configured
    /// opacity, using that opacity at the new default scale
    /// `default_opacity`. Each pass collects all its recomputed styles
    /// before writing any back, and the foreground pass collects against
    /// the background-updated table, so a style recorded on both sides ends
    /// with both sides recomputed — no write is lost to a stale read.
    /// Styles recorded only against colors without a configured opacity are
    /// left untouched.
    pub fn update_all_styles_opacity(&mut self, default_opacity: u8)
        requires
            old(self).wf(),
        ensures
            final(self).wf(),
            final(self).opacities() == old(self).opacities(),
            final(self).background_colors() == old(self).background_colors(),
            final(self).background_index() == old(self).background_index(),
            final(self).foreground_colors() == old(self).foreground_colors(),
            final(self).foreground_index() == old(self).foreground_index(),
            final(self).styles().dom() == old(self).styles().dom(),
            forall|id: u64| #[trigger] old(self).styles().contains_key(id)
                ==> final(self).styles()[id] == rescaled_style(
                old(self).styles()[id],
                rescale_source(
                    old(self).background_colors(),
                    old(self).background_index(),
                    old(self).opacities(),
                    id,
                ),
                rescale_source(
                    old(self).foreground_colors(),
                    old(self).foreground_index(),
                    old(self).opacities(),
                    id,
                ),
                default_opacity,
            ),
            final(self).styles() == globally_rescaled(
                old(self).styles(),
                old(self).background_colors(),
                old(self).background_index(),
                old(self).foreground_colors(),
                old(self).foreground_index(),
                old(self).opacities(),
                default_opacity,
            ),
    {
        let ghost styles0 = self.defined_styles@;
        let ghost opacities0 = self.defined_opacities@;
        let ghost bg_entries = self.background_color_style_map@;
        let ghost fg_entries = self.foreground_color_style_map@;
        let new_background_styles = collect_updates(
            &self.background_color_style_map,
            &self.defined_styles,
            &self.defined_opacities,
            true,
            default_opacity,
        );
        write_back(&mut self.defined_styles, &new_background_styles);
        let ghost styles1 = self.defined_styles@;
        let new_foreground_styles = collect_updates(
            &self.foreground_color_style_map,
            &self.defined_styles,
            &self.defined_opacities,
            false,
            default_opacity,
        );
        write_back(&mut self.defined_styles, &new_foreground_styles);
        proof {
            assert forall|id: u64| #[trigger] styles0.contains_key(id)
                implies self.defined_styles@[id] == rescaled_style(
                styles0[id],
                rescale_source(entry_colors(bg_entries), index_of(bg_entries), opacities0, id),
                rescale_source(entry_colors(fg_entries), index_of(fg_entries), opacities0, id),
                default_opacity,
            ) && self.defined_styles@.contains_key(id) by {
                lemma_collected_apply(styles0, bg_entries, styles0, opacities0, true,
                    default_opacity, id);
                lemma_collected_apply(styles1, fg_entries, styles1, opacities0, false,
                    default_opacity, id);
            }
            assert forall|id: u64| #[trigger] self.defined_styles@.contains_key(id)
                implies styles0.contains_key(id) by {
                lemma_collected_apply(styles0, bg_entries, styles0, opacities0, true,
                    default_opacity, id);
                lemma_collected_apply(styles1, fg_entries, styles1, opacities0, false,
                    default_opacity, id);
            }
            assert(self.defined_styles@.dom() =~= styles0.dom());
            assert(self.defined_styles@ =~= globally_rescaled(
                styles0,
                entry_colors(bg_entries),
                index_of(bg_entries),
                entry_colors(fg_entries),
                index_of(fg_entries),
                opacities0,
                default_opacity,
            ));
        }
    }

    /// Apply the opacity already configured for the style's background and
    /// foreground colors, where one is configured; leave untouched sides as
    /// they came in. Called when a style is defined.
    fn update_style_opacities_from_existing_mapping(&self, style: &mut Style, opacity: u8)
        ensures
            *final(style) == adjusted_for_set(*old(style), self.opacities(), opacity),
    {
        match style.bg() {
            Some(bg) => match self.defined_opacities.get(&bg) {
                Some(color_opacity) => style.set_background_opacity(color_opacity, opacity),
                None => {},
            },
            None => {},
        }
        match style.fg() {
            Some(fg) => match self.defined_opacities.get(&fg) {
                Some(color_opacity) => style.set_foreground_opacity(color_opacity, opacity),
                None => {},
            },
            None => {},
        }
    }

    /// Record the style's identifier against its background and foreground
    /// colors in the matching reverse indices. Called when a style is
    /// defined; nothing is ever removed from the indices.
    fn update_color_to_style_mapping(&mut self, style: &Style, id: u64)
        requires
            old(self).wf(),
        ensures
            final(self).wf(),
            final(self).styles() == old(self).styles(),
            final(self).opacities() == old(self).opacities(),
            final(self).background_colors() == match style.background {
                Some(c) => if old(self).background_index().contains_key(c) {
                    old(self).background_colors()
                } else {
                    old(self).background_colors().push(c)
                },
                None => old(self).background_colors(),
            },
            final(self).background_index() == match style.background {
                Some(c) => old(self).background_index().insert(
                    c,
                    recorded_ids(old(self).background_index(), c).push(id),
                ),
                None => old(self).background_index(),
            },
            final(self).foreground_colors() == match style.foreground {
                Some(c) => if old(self).foreground_index().contains_key(c) {
                    old(self).foreground_colors()
                } else {
                    old(self).foreground_colors().push(c)
                },
                None => old(self).foreground_colors(),
            },
            final(self).foreground_index() == match style.foreground {
                Some(c) => old(self).foreground_index().insert(
                    c,
                    recorded_ids(old(self).foreground_index(), c).push(id),
                ),
                None => old(self).foreground_index(),
            },
    {
        proof {
            match style.background {
                Some(c) => lemma_recorded_ids(old(self).background_color_style_map@, c),
                None => {},
            }
            match style.foreground {
                Some(c) => lemma_recorded_ids(old(self).foreground_color_style_map@, c),
                None => {},
            }
        }
        match style.bg() {
            Some(color) => push_id(&mut self.background_color_style_map, color, id),
            None => {},
        }
        match style.fg() {
            Some(color) => push_id(&mut self.foreground_color_style_map, color, id),
            None => {},
        }
    }
}

impl Default for StyleRegistry {
    /// Same as `new`: a registry with all four tables empty.
    fn default() -> (r: StyleRegistry)
        ensures
            r.wf(),
            r.styles() == Map::<u64, Style>::empty(),
            r.opacities() == Map::<u64, ColorOpacity>::empty(),
            r.background_colors() == Seq::<u64>::empty(),
            r.foreground_colors() == Seq::<u64>::empty(),
            r.background_index() == Map::<u64, Seq<u64>>::empty(),
            r.foreground_index() == Map::<u64, Seq<u64>>::empty(),
    {
        StyleRegistry::new()
    }
}

} // verus!
