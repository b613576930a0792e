//! The table of colours that the counter looks for, as HSV intervals in
//! OpenCV's 8-bit convention (hue 0..=180, saturation and value 0..=255).

use vstd::prelude::*;
use crate::text::is_ascii_text;

verus! {

/// One closed box in HSV space: a pixel `(h, s, v)` lies in it when each
/// channel lies between the box's bounds, both included (the mask that
/// OpenCV's `inRange` makes of it).
#[derive(Clone, Copy, Debug, PartialEq, Eq, Structural)]
pub struct HsvRange {
    pub h_min: u8,
    pub h_max: u8,
    pub s_min: u8,
    pub s_max: u8,
    pub v_min: u8,
    pub v_max: u8,
}

/// A colour in OpenCV's blue-green-red channel order.
#[derive(Clone, Copy, Debug, PartialEq, Eq, Structural)]
pub struct Bgr {
    pub b: u8,
    pub g: u8,
    pub r: u8,
}

/// A named colour: the HSV boxes that make it up and the colour in which
/// its detections are drawn.
#[derive(Debug)]
pub struct ColorRange {
    pub name: &'static str,
    pub ranges: Vec<HsvRange>,
    pub display: Bgr,
}

/// What a colour entry stands for.
pub struct ColorRangeView {
    pub name: Seq<char>,
    pub ranges: Seq<HsvRange>,
    pub display: Bgr,
}

impl View for ColorRange {
    type V = ColorRangeView;

    open spec fn view(&self) -> ColorRangeView {
        ColorRangeView { name: self.name@, ranges: self.ranges@, display: self.display }
    }
}

impl HsvRange {
    /// Each lower bound is at most its upper bound, and the hue stays
    /// within OpenCV's 0..=180.
    pub open spec fn well_formed(self) -> bool {
        &&& self.h_min <= self.h_max <= 180
        &&& self.s_min <= self.s_max
        &&& self.v_min <= self.v_max
    }
}

/// Builds an HSV box from its six bounds.
pub open spec fn hsv(h_min: u8, h_max: u8, s_min: u8, s_max: u8, v_min: u8, v_max: u8) -> HsvRange {
    HsvRange { h_min, h_max, s_min, s_max, v_min, v_max }
}

/// Builds a display colour.
pub open spec fn bgr(b: u8, g: u8, r: u8) -> Bgr {
    Bgr { b, g, r }
}

/// The colour table, in the order in which colours are searched and shown.
pub open spec fn color_table() -> Seq<ColorRangeView> {
    seq![
        ColorRangeView {
            name: "Rojo"@,
            ranges: seq![hsv(0, 10, 80, 255, 50, 255), hsv(160, 180, 80, 255, 50, 255)],
            display: bgr(0, 0, 220),
        },
        ColorRangeView {
            name: "Naranja"@,
            ranges: seq![hsv(10, 25, 80, 255, 50, 255)],
            display: bgr(0, 140, 255),
        },
        ColorRangeView {
            name: "Amarillo"@,
            ranges: seq![hsv(25, 35, 80, 255, 50, 255)],
            display: bgr(0, 220, 220),
        },
        ColorRangeView {
            name: "Verde"@,
            ranges: seq![hsv(35, 85, 50, 255, 50, 255)],
            display: bgr(0, 180, 50),
        },
        ColorRangeView {
            name: "Azul"@,
            ranges: seq![hsv(100, 130, 50, 255, 50, 255)],
            display: bgr(220, 80, 0),
        },
        ColorRangeView {
            name: "Violeta"@,
            ranges: seq![hsv(130, 160, 50, 255, 50, 255)],
            display: bgr(200, 0, 180),
        },
        ColorRangeView {
            name: "Blanco"@,
            ranges: seq![hsv(0, 180, 0, 30, 200, 255)],
            display: bgr(240, 240, 240),
        },
        ColorRangeView {
            name: "Negro"@,
            ranges: seq![hsv(0, 180, 0, 255, 0, 40)],
            display: bgr(60, 60, 60),
        },
    ]
}

/// The colour entries `table` are exactly those of the colour table.
pub open spec fn is_color_table(table: Seq<ColorRange>) -> bool {
    &&& table.len() == color_table().len()
    &&& forall|i: int| 0 <= i < table.len() ==> #[trigger] table[i]@ == color_table()[i]
}

fn range(h_min: u8, h_max: u8, s_min: u8, s_max: u8, v_min: u8, v_max: u8) -> (r: HsvRange)
    ensures
        r == hsv(h_min, h_max, s_min, s_max, v_min, v_max),
{
    HsvRange { h_min, h_max, s_min, s_max, v_min, v_max }
}

fn entry(name: &'static str, ranges: Vec<HsvRange>, b: u8, g: u8, r: u8) -> (c: ColorRange)
    ensures
        c.name == name,
        c.ranges@ == ranges@,
        c.display == bgr(b, g, r),
{
    ColorRange { name, ranges, display: Bgr { b, g, r } }
}

/// The colour table.
pub fn get_color_ranges() -> (table: Vec<ColorRange>)
    ensures
        is_color_table(table@),
{
    let mut table: Vec<ColorRange> = Vec::new();
    table.push(entry("Rojo", vec![range(0, 10, 80, 255, 50, 255), range(160, 180, 80, 255, 50, 255)], 0, 0, 220));
    table.push(entry("Naranja", vec![range(10, 25, 80, 255, 50, 255)], 0, 140, 255));
    table.push(entry("Amarillo", vec![range(25, 35, 80, 255, 50, 255)], 0, 220, 220));
    table.push(entry("Verde", vec![range(35, 85, 50, 255, 50, 255)], 0, 180, 50));
    table.push(entry("Azul", vec![range(100, 130, 50, 255, 50, 255)], 220, 80, 0));
    table.push(entry("Violeta", vec![range(130, 160, 50, 255, 50, 255)], 200, 0, 180));
    table.push(entry("Blanco", vec![range(0, 180, 0, 30, 200, 255)], 240, 240, 240));
    table.push(entry("Negro", vec![range(0, 180, 0, 255, 0, 40)], 60, 60, 60));
    assert forall|i: int| 0 <= i < table.len() implies #[trigger] table@[i]@ == color_table()[i] by {
        assert(table@[i]@.ranges =~= color_table()[i].ranges);
    }
    table
}

/// Every box of the colour table is well formed, the names are plain ASCII,
/// and no two colours share a name, so a colour is told apart by its name as
/// by its place in the table.
pub proof fn lemma_color_table_well_formed()
    ensures
        forall|i: int, k: int|
            0 <= i < color_table().len() && 0 <= k < color_table()[i].ranges.len()
                ==> #[trigger] color_table()[i].ranges[k].well_formed(),
        forall|i: int| 0 <= i < color_table().len() ==> is_ascii_text(#[trigger] color_table()[i].name),
        forall|i: int, j: int|
            0 <= i < j < color_table().len() ==> #[trigger] color_table()[i].name
                != #[trigger] color_table()[j].name,
{
    reveal_strlit("Rojo");
    reveal_strlit("Naranja");
    reveal_strlit("Amarillo");
    reveal_strlit("Verde");
    reveal_strlit("Azul");
    reveal_strlit("Violeta");
    reveal_strlit("Blanco");
    reveal_strlit("Negro");
    let t = color_table();
    assert forall|i: int, j: int| 0 <= i < j < t.len() implies #[trigger] t[i].name
        != #[trigger] t[j].name by {
        assert(t[i].name[0] != t[j].name[0] || t[i].name.len() != t[j].name.len()
            || t[i].name[1] != t[j].name[1]);
    }
}

} // verus!
