use proyecto_opencv::colors::{get_color_ranges, Bgr, HsvRange};

fn r(h_min: u8, h_max: u8, s_min: u8, s_max: u8, v_min: u8, v_max: u8) -> HsvRange {
    HsvRange { h_min, h_max, s_min, s_max, v_min, v_max }
}

#[test]
fn table_has_the_eight_colours_in_order() {
    let t = get_color_ranges();
    let names: Vec<&str> = t.iter().map(|c| c.name).collect();
    assert_eq!(
        names,
        vec!["Rojo", "Naranja", "Amarillo", "Verde", "Azul", "Violeta", "Blanco", "Negro"]
    );
}

#[test]
fn red_wraps_around_the_hue_circle() {
    let t = get_color_ranges();
    assert_eq!(t[0].ranges, vec![r(0, 10, 80, 255, 50, 255), r(160, 180, 80, 255, 50, 255)]);
    assert_eq!(t[0].display, Bgr { b: 0, g: 0, r: 220 });
}

#[test]
fn other_colours_have_one_box() {
    let t = get_color_ranges();
    assert_eq!(t[1].ranges, vec![r(10, 25, 80, 255, 50, 255)]);
    assert_eq!(t[2].ranges, vec![r(25, 35, 80, 255, 50, 255)]);
    assert_eq!(t[3].ranges, vec![r(35, 85, 50, 255, 50, 255)]);
    assert_eq!(t[4].ranges, vec![r(100, 130, 50, 255, 50, 255)]);
    assert_eq!(t[5].ranges, vec![r(130, 160, 50, 255, 50, 255)]);
    assert_eq!(t[6].ranges, vec![r(0, 180, 0, 30, 200, 255)]);
    assert_eq!(t[7].ranges, vec![r(0, 180, 0, 255, 0, 40)]);
    assert_eq!(t[1].display, Bgr { b: 0, g: 140, r: 255 });
    assert_eq!(t[2].display, Bgr { b: 0, g: 220, r: 220 });
    assert_eq!(t[3].display, Bgr { b: 0, g: 180, r: 50 });
    assert_eq!(t[4].display, Bgr { b: 220, g: 80, r: 0 });
    assert_eq!(t[5].display, Bgr { b: 200, g: 0, r: 180 });
    assert_eq!(t[6].display, Bgr { b: 240, g: 240, r: 240 });
    assert_eq!(t[7].display, Bgr { b: 60, g: 60, r: 60 });
}

#[test]
fn boxes_are_well_formed_and_names_distinct() {
    let t = get_color_ranges();
    for c in &t {
        for b in &c.ranges {
            assert!(b.h_min <= b.h_max && b.h_max <= 180);
            assert!(b.s_min <= b.s_max && b.v_min <= b.v_max);
        }
    }
    for i in 0..t.len() {
        for j in i + 1..t.len() {
            assert_ne!(t[i].name, t[j].name);
        }
    }
}
