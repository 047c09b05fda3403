//! Counts kept while SVG paths are turned into contours.
use vstd::prelude::*;

verus! {

#[derive(Debug)]
pub struct SvgStats {
    /// Contours made from the paths.
    pub path_count: usize,
    /// Points read from the paths.
    pub before: usize,
    /// Vertices in the contours.
    pub after: usize,
    pub arc_segments: usize,
}

impl Default for SvgStats {
    fn default() -> (s: Self)
        ensures
            s.path_count == 0,
            s.before == 0,
            s.after == 0,
            s.arc_segments == 0,
    {
        SvgStats { path_count: 0, before: 0, after: 0, arc_segments: 0 }
    }
}

impl SvgStats {
    /// Counts one more contour, made from `before` points into `after`
    /// vertices of which `arc_segments` start an arc.
    pub fn add_contour(&mut self, before: usize, after: usize, arc_segments: usize)
        requires
            old(self).path_count + 1 <= usize::MAX,
            old(self).before + before <= usize::MAX,
            old(self).after + after <= usize::MAX,
            old(self).arc_segments + arc_segments <= usize::MAX,
        ensures
            final(self).path_count == old(self).path_count + 1,
            final(self).before == old(self).before + before,
            final(self).after == old(self).after + after,
            final(self).arc_segments == old(self).arc_segments + arc_segments,
    {
        self.path_count += 1;
        self.before += before;
        self.after += after;
        self.arc_segments += arc_segments;
    }
}

} // verus!
