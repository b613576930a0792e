use proyecto_opencv::detect::select_objects;
use proyecto_opencv::geometry::{Point, Rect};

fn square(x: i32, y: i32, side: i32) -> Vec<Point> {
    vec![
        Point { x, y },
        Point { x: x + side, y },
        Point { x: x + side, y: y + side },
        Point { x, y: y + side },
    ]
}

#[test]
fn small_contours_are_not_counted() {
    // areas 400, 25 and 900; minimum area 500 -> doubled threshold 1000
    let cs = vec![square(10, 20, 20), square(0, 0, 5), square(100, 50, 30)];
    let found = select_objects(&cs, 1000, "Azul");
    assert_eq!(found.len(), 1);
    assert_eq!(found[0].rect, Rect { x: 100, y: 50, width: 31, height: 31 });
    assert_eq!(found[0].label, "Azul #1");
    assert_eq!(found[0].label_origin, Point { x: 100, y: 42 });
}

#[test]
fn labels_are_numbered_from_one_in_contour_order() {
    let cs = vec![square(0, 0, 30), square(40, 3, 30), square(80, 100, 2), square(5, 60, 40)];
    let found = select_objects(&cs, 1000, "Rojo");
    let labels: Vec<&str> = found.iter().map(|d| d.label.as_str()).collect();
    assert_eq!(labels, vec!["Rojo #1", "Rojo #2", "Rojo #3"]);
    assert_eq!(found[1].label_origin, Point { x: 40, y: -5 });
    assert_eq!(found[2].rect, Rect { x: 5, y: 60, width: 41, height: 41 });
}

#[test]
fn area_exactly_at_the_minimum_counts() {
    // area 400, minimum 400 -> threshold 800; minimum 400.5 -> threshold 801
    let cs = vec![square(0, 0, 20)];
    assert_eq!(select_objects(&cs, 800, "Verde").len(), 1);
    assert_eq!(select_objects(&cs, 801, "Verde").len(), 0);
}

#[test]
fn a_higher_minimum_never_counts_more() {
    let cs = vec![square(0, 0, 10), square(0, 0, 20), square(0, 0, 30), square(0, 0, 3)];
    let mut last = usize::MAX;
    for t in [i128::MIN, 0, 18, 200, 201, 800, 1800, 1801, i128::MAX] {
        let n = select_objects(&cs, t, "Negro").len();
        assert!(n <= last);
        last = n;
    }
    assert_eq!(select_objects(&cs, 0, "Negro").len(), 4);
    assert_eq!(select_objects(&cs, i128::MAX, "Negro").len(), 0);
}

#[test]
fn no_contours_no_objects() {
    assert!(select_objects(&vec![], 0, "Blanco").is_empty());
}
