//! The decisions of tile recognition: which part of the screen shows a
//! cell, how far two images are apart channel by channel, and which
//! reference image fits best.

use vstd::prelude::*;
use crate::element::Element;
use crate::index::SigCoord;
use crate::screen::{coord_to_screen, screen_x, screen_y};

verus! {

/// What a reference image shows: an empty cell, a tile that may be removed,
/// or a tile that is drawn as blocked.
#[derive(Clone, Copy, Debug, PartialEq, Eq, PartialOrd, Ord, Hash, Structural)]
pub enum ElementImageKey {
    Empty,
    Normal(Element),
    Blocked(Element),
}

impl ElementImageKey {
    /// The tile that the image shows, if it shows one.
    pub open spec fn shown(self) -> Option<Element> {
        match self {
            ElementImageKey::Empty => None,
            ElementImageKey::Normal(element) => Some(element),
            ElementImageKey::Blocked(element) => Some(element),
        }
    }

    /// The tile that the image shows, if it shows one.
    pub fn element(&self) -> (element: Option<Element>)
        ensures
            element == self.shown(),
    {
        match self {
            ElementImageKey::Empty => None,
            ElementImageKey::Normal(element) => Some(*element),
            ElementImageKey::Blocked(element) => Some(*element),
        }
    }
}

/// Whether `best` is the first position of the lowest score.
pub open spec fn first_lowest(scores: Seq<(ElementImageKey, u32)>, best: int) -> bool {
    &&& 0 <= best < scores.len()
    &&& forall|j: int| 0 <= j < scores.len() ==> scores[best].1 <= (#[trigger] scores[j]).1
    &&& forall|j: int| 0 <= j < best ==> scores[best].1 < (#[trigger] scores[j]).1
}

/// The tile of the reference image with the lowest score: of the first such
/// image where several score the same. There has to be a score.
pub fn best_element(scores: &[(ElementImageKey, u32)]) -> (element: Option<Element>)
    requires
        scores@.len() > 0,
    ensures
        exists|best: int| first_lowest(scores@, best) && element == scores@[best].0.shown(),
{
    let mut best: usize = 0;
    let mut at: usize = 1;
    while at < scores.len()
        invariant
            1 <= at <= scores@.len(),
            0 <= best < at,
            forall|j: int| 0 <= j < at ==> scores@[best as int].1 <= (#[trigger] scores@[j]).1,
            forall|j: int| 0 <= j < best ==> scores@[best as int].1 < (#[trigger] scores@[j]).1,
        decreases scores@.len() - at,
    {
        if scores[at].1 < scores[best].1 {
            best = at;
        }
        at = at + 1;
    }
    proof {
        assert(first_lowest(scores@, best as int));
    }
    scores[best].0.element()
}

/// The square of the screen in which the cell at `coord` is scanned: the
/// left and the top edge, the width and the height. The square has a side of
/// 20 pixels and the center of the cell at its center.
pub fn scan_position(coord: SigCoord) -> (area: (u32, u32, u32, u32))
    ensures
        area.0 == screen_x(coord@.0, coord@.1) - 10,
        area.1 == screen_y(coord@.0) - 10,
        area.2 == 20,
        area.3 == 20,
{
    let scan_size: u32 = 20;
    proof {
        use_type_invariant(&coord);
    }
    let position: (u32, u32) = coord_to_screen(coord);
    (position.0 - scan_size / 2, position.1 - scan_size / 2, scan_size, scan_size)
}

/// The distance between two channel values.
pub open spec fn distance(a: u8, b: u8) -> int {
    if a < b {
        b - a
    } else {
        a - b
    }
}

/// The distance between two images of the same size, channel by channel.
pub fn channel_differences(image: &[u8], reference: &[u8]) -> (differences: Vec<u8>)
    requires
        image@.len() == reference@.len(),
    ensures
        differences@.len() == image@.len(),
        forall|i: int|
            0 <= i < image@.len() ==> (#[trigger] differences@[i]) == distance(
                image@[i],
                reference@[i],
            ),
{
    let mut differences: Vec<u8> = Vec::new();
    let mut at: usize = 0;
    while at < image.len()
        invariant
            0 <= at <= image@.len(),
            image@.len() == reference@.len(),
            differences@.len() == at,
            forall|i: int|
                0 <= i < at ==> (#[trigger] differences@[i]) == distance(image@[i], reference@[i]),
        decreases image@.len() - at,
    {
        let a: u8 = image[at];
        let b: u8 = reference[at];
        differences.push(
            if a < b {
                b - a
            } else {
                a - b
            },
        );
        at = at + 1;
    }
    differences
}

/// The score of an averaged pixel: the sum of its three channels.
pub fn channel_sum(pixel: [u8; 3]) -> (score: u32)
    ensures
        score == pixel[0] + pixel[1] + pixel[2],
{
    pixel[0] as u32 + pixel[1] as u32 + pixel[2] as u32
}

} // verus!
