//! Choosing, among the contours found in a colour's mask, those large enough
//! to count as objects, with the box and the label drawn for each.

use vstd::prelude::*;
use vstd::string::*;
use crate::geometry::{
    bounding_rect, contour_doubled_area, contour_in_image, doubled_area, is_bounding_rect, Point,
    Rect,
};
use crate::text::{decimal, lemma_parse_decimal_roundtrip, parse_usize_spec, push_decimal};

verus! {

/// One counted object: its bounding box, its label (`"<colour> #<n>"`, `n`
/// counting from 1) and where the label's text starts (8 pixels above the
/// box's top-left corner).
#[derive(Debug)]
pub struct Detection {
    pub rect: Rect,
    pub label: String,
    pub label_origin: Point,
}

/// Every contour lies in the image.
pub open spec fn contours_in_image(cs: Seq<Vec<Point>>) -> bool {
    forall|i: int| 0 <= i < cs.len() ==> #[trigger] contour_in_image(cs[i]@)
}

/// The contour is large enough to count: its area is at least the minimum,
/// given as `threshold`, the least whole number not below twice the minimum
/// area (so that comparing doubled areas, which are whole, decides exactly).
pub open spec fn large_enough(c: Seq<Point>, threshold: i128) -> bool {
    doubled_area(c) >= threshold
}

/// The contours among `cs` that count, in their order.
pub open spec fn kept(cs: Seq<Vec<Point>>, threshold: i128) -> Seq<Seq<Point>>
    decreases cs.len(),
{
    if cs.len() == 0 {
        Seq::empty()
    } else {
        let rest = kept(cs.drop_last(), threshold);
        if large_enough(cs.last()@, threshold) {
            rest.push(cs.last()@)
        } else {
            rest
        }
    }
}

/// The label of the `n`-th object of a colour.
pub open spec fn label_text(name: Seq<char>, n: nat) -> Seq<char> {
    name + " #"@ + decimal(n)
}

/// The shapes of the contours `cs`.
pub open spec fn shapes(cs: Seq<Vec<Point>>) -> Seq<Seq<Point>> {
    cs.map_values(|v: Vec<Point>| v@)
}

/// The contours among `cs`, in their order, whose doubled area reaches
/// `threshold`: each one that does, and no other.
pub open spec fn reaching(cs: Seq<Vec<Point>>, threshold: i128) -> Seq<Seq<Point>> {
    shapes(cs).filter(|c: Seq<Point>| doubled_area(c) >= threshold)
}

/// The number that a label gives after the colour name and `" #"`.
pub open spec fn label_number(label: Seq<char>, name: Seq<char>) -> Option<usize> {
    parse_usize_spec(label.subrange(name.len() + 2int, label.len() as int))
}

/// `d` is what is drawn for the `k`-th counted contour `c` of colour `name`.
pub open spec fn describes(d: Detection, c: Seq<Point>, name: Seq<char>, k: nat) -> bool {
    &&& is_bounding_rect(c, d.rect)
    &&& d.label@ == label_text(name, k + 1)
    &&& d.label_origin == Point { x: d.rect.x, y: (d.rect.y - 8) as i32 }
}

/// The label of the `n`-th object of colour `name`.
fn make_label(name: &str, n: usize) -> (s: String)
    ensures
        s@ == label_text(name@, n as nat),
{
    let mut s = String::new();
    s.append(name);
    s.append(" #");
    push_decimal(&mut s, n);
    assert(s@ =~= label_text(name@, n as nat));
    s
}

/// Keeps the contours whose area reaches the minimum (see `large_enough`)
/// and describes each: its bounding box, its numbered label and the label's
/// position. Their number is the colour's count of objects in the frame.
pub fn select_objects(contours: &Vec<Vec<Point>>, threshold: i128, name: &str) -> (r: Vec<Detection>)
    requires
        contours_in_image(contours@),
    ensures
        r.len() == kept(contours@, threshold).len(),
        forall|k: int|
            0 <= k < r.len() ==> #[trigger] describes(
                r[k],
                kept(contours@, threshold)[k],
                name@,
                k as nat,
            ),
        r.len() == reaching(contours@, threshold).len(),
        forall|k: int|
            0 <= k < r.len() ==> #[trigger] is_bounding_rect(
                reaching(contours@, threshold)[k],
                r[k].rect,
            ),
        forall|k: int|
            0 <= k < r.len() ==> (#[trigger] r[k].label@).subrange(0, name@.len() as int)
                == name@ && label_number(r[k].label@, name@) == Some((k + 1) as usize),
{
    let mut r: Vec<Detection> = Vec::new();
    let mut i: usize = 0;
    while i < contours.len()
        invariant
            i <= contours.len(),
            r.len() <= i,
            contours_in_image(contours@),
            r.len() == kept(contours@.subrange(0, i as int), threshold).len(),
            forall|k: int|
                0 <= k < r.len() ==> #[trigger] describes(
                    r[k],
                    kept(contours@.subrange(0, i as int), threshold)[k],
                    name@,
                    k as nat,
                ),
        decreases contours.len() - i,
    {
        let ghost before = contours@.subrange(0, i as int);
        let ghost after = contours@.subrange(0, i as int + 1);
        assert(after.drop_last() =~= before);
        assert(contour_in_image(contours@[i as int]@));
        let area = contour_doubled_area(&contours[i]);
        if area >= threshold {
            let rect = bounding_rect(&contours[i]);
            let n = r.len();
            let label = make_label(name, n + 1);
            r.push(Detection { rect, label, label_origin: Point { x: rect.x, y: rect.y - 8 } });
        }
        i = i + 1;
        assert forall|k: int| 0 <= k < r.len() implies #[trigger] describes(
            r[k],
            kept(after, threshold)[k],
            name@,
            k as nat,
        ) by {
            if k < r.len() - 1 || area < threshold {
                assert(kept(after, threshold)[k] == kept(before, threshold)[k]);
            }
        }
    }
    assert(contours@.subrange(0, contours.len() as int) =~= contours@);
    proof {
        lemma_kept_is_reaching(contours@, threshold);
        assert forall|k: int| 0 <= k < r.len() implies #[trigger] is_bounding_rect(
            reaching(contours@, threshold)[k],
            r[k].rect,
        ) by {
            assert(describes(r[k], kept(contours@, threshold)[k], name@, k as nat));
        }
        assert forall|k: int| 0 <= k < r.len() implies (#[trigger] r[k].label@).subrange(
            0,
            name@.len() as int,
        ) == name@ && label_number(r[k].label@, name@) == Some((k + 1) as usize) by {
            assert(describes(r[k], kept(contours@, threshold)[k], name@, k as nat));
            lemma_label_reads_back(name@, (k + 1) as usize);
        }
    }
    r
}

/// The contours counted are exactly those whose doubled area reaches the
/// threshold, in their order: none of them is left out, whatever their
/// number, and no smaller one is let in.
pub proof fn lemma_kept_is_reaching(cs: Seq<Vec<Point>>, threshold: i128)
    ensures
        kept(cs, threshold) == reaching(cs, threshold),
    decreases cs.len(),
{
    reveal_with_fuel(Seq::<_>::filter, 1);
    if cs.len() > 0 {
        lemma_kept_is_reaching(cs.drop_last(), threshold);
        assert(shapes(cs).drop_last() =~= shapes(cs.drop_last()));
        assert(shapes(cs).last() == cs.last()@);
    } else {
        assert(shapes(cs).len() == 0);
    }
}

/// A label reads back: it is the colour name, then `" #"`, then the number
/// it was made with, written out in full; so the labels of one colour are
/// all different.
pub proof fn lemma_label_reads_back(name: Seq<char>, n: usize)
    ensures
        label_text(name, n as nat).subrange(0, name.len() as int) == name,
        label_text(name, n as nat)[name.len() as int] == ' ',
        label_text(name, n as nat)[name.len() + 1int] == '#',
        label_number(label_text(name, n as nat), name) == Some(n),
{
    reveal_strlit(" #");
    let l = label_text(name, n as nat);
    assert(l.subrange(0, name.len() as int) =~= name);
    assert(l.subrange(name.len() + 2int, l.len() as int) =~= decimal(n as nat));
    lemma_parse_decimal_roundtrip(n);
}

/// Two labels of one colour are equal only for the same number.
pub proof fn lemma_labels_distinct(name: Seq<char>, a: usize, b: usize)
    ensures
        label_text(name, a as nat) == label_text(name, b as nat) ==> a == b,
{
    lemma_label_reads_back(name, a);
    lemma_label_reads_back(name, b);
}

/// A higher minimum area never counts more objects: the contours kept at
/// the higher threshold are among those kept at the lower one.
pub proof fn lemma_higher_threshold_counts_fewer(cs: Seq<Vec<Point>>, low: i128, high: i128)
    requires
        low <= high,
    ensures
        kept(cs, high).len() <= kept(cs, low).len(),
    decreases cs.len(),
{
    if cs.len() > 0 {
        lemma_higher_threshold_counts_fewer(cs.drop_last(), low, high);
    }
}

} // verus!
