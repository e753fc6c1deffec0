//! Depth-based choice of node fill colors, with per-depth overrides and a preview.
use vstd::prelude::*;
use std::collections::HashMap;
use crate::node::Rgb;

verus! {

broadcast use vstd::std_specs::hash::group_hash_axioms;

/// Number of entries in the fill palette.
pub const DEPTH_FILL_COUNT: usize = 40;

/// Depths repeat their color choice with this period when overridden.
pub const DEPTH_PERIOD: usize = 8;

/// The palette index used for `depth`, given the overrides (keyed by `depth % 8`) and
/// the preview `(depth % 8, index)`, which wins over everything else.
pub open spec fn fill_index_spec(
    overrides: Map<usize, usize>,
    preview: Option<(usize, usize)>,
    depth: usize,
) -> usize {
    let slot = (depth % 8) as usize;
    let from_overrides = if overrides.contains_key(slot) {
        (overrides[slot] % 40) as usize
    } else {
        (depth % 40) as usize
    };
    match preview {
        Some((pd, pi)) => if pd == slot { (pi % 40) as usize } else { from_overrides },
        None => from_overrides,
    }
}

/// Configurable depth-to-color mapping.
pub struct DepthColorConfig {
    overrides: HashMap<usize, usize>,
    preview: Option<(usize, usize)>,
}

impl DepthColorConfig {
    /// The overrides, keyed by `depth % 8`.
    pub closed spec fn overrides_map(&self) -> Map<usize, usize> {
        self.overrides@
    }

    /// The temporary preview `(depth % 8, index)`, if any.
    pub closed spec fn preview_spec(&self) -> Option<(usize, usize)> {
        self.preview
    }

    pub fn new() -> (res: Self)
        ensures
            res.overrides_map() == Map::<usize, usize>::empty(),
            res.preview_spec() is None,
    {
        DepthColorConfig { overrides: HashMap::new(), preview: None }
    }

    /// The palette index for a given depth.
    pub fn get_fill_index(&self, depth: usize) -> (res: usize)
        ensures
            res == fill_index_spec(self.overrides_map(), self.preview_spec(), depth),
            res < DEPTH_FILL_COUNT,
    {
        let slot = depth % 8;
        if let Some((preview_depth, preview_idx)) = self.preview {
            if slot == preview_depth {
                return preview_idx % DEPTH_FILL_COUNT;
            }
        }
        match self.overrides.get(&slot) {
            Some(idx) => *idx % DEPTH_FILL_COUNT,
            None => depth % DEPTH_FILL_COUNT,
        }
    }

    pub fn set_preview(&mut self, preview: Option<(usize, usize)>)
        ensures
            final(self).preview_spec() == preview,
            final(self).overrides_map() == old(self).overrides_map(),
    {
        self.preview = preview;
    }

    /// Overrides the color of every depth congruent to `depth` modulo 8.
    pub fn set_fill_index(&mut self, depth: usize, idx: usize)
        ensures
            final(self).overrides_map() == old(self).overrides_map().insert(
                (depth % 8) as usize,
                (idx % 40) as usize,
            ),
            final(self).preview_spec() == old(self).preview_spec(),
    {
        self.overrides.insert(depth % 8, idx % DEPTH_FILL_COUNT);
    }

    pub fn reset_all(&mut self)
        ensures
            final(self).overrides_map() == Map::<usize, usize>::empty(),
            final(self).preview_spec() == old(self).preview_spec(),
    {
        self.overrides.clear();
    }

    pub fn has_overrides(&self) -> (res: bool)
        ensures
            res == !self.overrides_map().is_empty(),
    {
        !self.overrides.is_empty()
    }
}

impl Default for DepthColorConfig {
    fn default() -> (res: Self)
        ensures
            res.overrides_map() == Map::<usize, usize>::empty(),
            res.preview_spec() is None,
    {
        Self::new()
    }
}

/// An override applies to every depth in its residue class, until a reset.
pub proof fn lemma_override_applies(
    overrides: Map<usize, usize>,
    depth: usize,
    idx: usize,
    other: usize,
)
    requires
        other % 8 == depth % 8,
    ensures
        fill_index_spec(overrides.insert((depth % 8) as usize, (idx % 40) as usize), None, other)
            == idx % 40,
{
}

/// With no overrides and no preview, the palette simply cycles with the depth.
pub proof fn lemma_default_cycles(depth: usize)
    ensures
        fill_index_spec(Map::empty(), None, depth) == depth % 40,
        fill_index_spec(Map::empty(), None, depth) == fill_index_spec(
            Map::empty(),
            None,
            (depth % 40) as usize,
        ),
{
}

/// The preview wins over any override of the same residue class.
pub proof fn lemma_preview_wins(overrides: Map<usize, usize>, slot: usize, idx: usize, depth: usize)
    requires
        depth % 8 == slot,
    ensures
        fill_index_spec(overrides, Some((slot, idx)), depth) == idx % 40,
{
}

/// The fill color at a palette index (taken modulo the palette size).
pub fn depth_fill_rgb(idx: usize) -> (res: Rgb)
    ensures
        res == depth_fill_spec((idx % 40) as nat),
{
    let i = idx % DEPTH_FILL_COUNT;
    let (r, g, b): (u8, u8, u8) = if i < 20 {
        if i < 10 {
            match i {
                0 => (255, 250, 214),
                1 => (214, 236, 255),
                2 => (255, 224, 228),
                3 => (220, 245, 222),
                4 => (255, 234, 210),
                5 => (234, 222, 248),
                6 => (210, 242, 238),
                7 => (226, 228, 248),
                8 => (255, 244, 168),
                _ => (164, 216, 255),
            }
        } else {
            match i {
                10 => (255, 186, 194),
                11 => (176, 232, 181),
                12 => (255, 207, 158),
                13 => (208, 181, 241),
                14 => (150, 226, 218),
                15 => (190, 194, 241),
                16 => (247, 227, 131),
                17 => (134, 199, 247),
                18 => (247, 160, 170),
                _ => (148, 218, 155),
            }
        }
    } else if i < 30 {
        match i {
            20 => (247, 186, 126),
            21 => (187, 155, 227),
            22 => (120, 210, 200),
            23 => (168, 173, 227),
            24 => (240, 212, 100),
            25 => (108, 182, 240),
            26 => (240, 138, 150),
            27 => (122, 204, 132),
            28 => (240, 168, 100),
            _ => (168, 132, 214),
        }
    } else {
        match i {
            30 => (94, 196, 184),
            31 => (148, 154, 214),
            32 => (230, 196, 72),
            33 => (82, 164, 230),
            34 => (230, 114, 128),
            35 => (96, 190, 108),
            36 => (230, 148, 72),
            37 => (148, 108, 200),
            38 => (68, 180, 166),
            _ => (128, 134, 200),
        }
    };
    Rgb { r, g, b }
}

/// The light palette: eight hue families, five shades each, interleaved so that
/// neighbouring depths get contrasting hues.
pub open spec fn depth_fill_spec(i: nat) -> Rgb {
    let t: (u8, u8, u8) = if i == 0 { (255, 250, 214) } else if i == 1 { (214, 236, 255) }
    else if i == 2 { (255, 224, 228) } else if i == 3 { (220, 245, 222) }
    else if i == 4 { (255, 234, 210) } else if i == 5 { (234, 222, 248) }
    else if i == 6 { (210, 242, 238) } else if i == 7 { (226, 228, 248) }
    else if i == 8 { (255, 244, 168) } else if i == 9 { (164, 216, 255) }
    else if i == 10 { (255, 186, 194) } else if i == 11 { (176, 232, 181) }
    else if i == 12 { (255, 207, 158) } else if i == 13 { (208, 181, 241) }
    else if i == 14 { (150, 226, 218) } else if i == 15 { (190, 194, 241) }
    else if i == 16 { (247, 227, 131) } else if i == 17 { (134, 199, 247) }
    else if i == 18 { (247, 160, 170) } else if i == 19 { (148, 218, 155) }
    else if i == 20 { (247, 186, 126) } else if i == 21 { (187, 155, 227) }
    else if i == 22 { (120, 210, 200) } else if i == 23 { (168, 173, 227) }
    else if i == 24 { (240, 212, 100) } else if i == 25 { (108, 182, 240) }
    else if i == 26 { (240, 138, 150) } else if i == 27 { (122, 204, 132) }
    else if i == 28 { (240, 168, 100) } else if i == 29 { (168, 132, 214) }
    else if i == 30 { (94, 196, 184) } else if i == 31 { (148, 154, 214) }
    else if i == 32 { (230, 196, 72) } else if i == 33 { (82, 164, 230) }
    else if i == 34 { (230, 114, 128) } else if i == 35 { (96, 190, 108) }
    else if i == 36 { (230, 148, 72) } else if i == 37 { (148, 108, 200) }
    else if i == 38 { (68, 180, 166) } else { (128, 134, 200) };
    Rgb { r: t.0, g: t.1, b: t.2 }
}

} // verus!
