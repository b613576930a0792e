use proyecto_opencv::colors::get_color_ranges;
use proyecto_opencv::dashboard::{dashboard_layout, PANEL_WIDTH};
use proyecto_opencv::geometry::Rect;

#[test]
fn rows_for_the_colours_seen() {
    let colors = get_color_ranges();
    let totals = vec![Some(3), None, None, None, Some(1), None, None, None];
    let frame = vec![Some(1), None, None, None, None, None, None, None];
    let d = dashboard_layout(&colors, &totals, &frame);
    assert_eq!(d.panel_w, PANEL_WIDTH);
    assert_eq!(d.panel_w, 290);
    assert_eq!(d.panel_h, 40 + 8 * 24 + 30);
    assert_eq!(d.total, 4);
    assert_eq!(d.rows.len(), 2);

    let r = &d.rows[0];
    assert_eq!(r.color, 0);
    assert_eq!(r.y, 54);
    assert_eq!(r.name_text, "Rojo      ");
    assert_eq!(r.pct, 75);
    assert_eq!(r.bar_len, 120);
    assert_eq!(r.bar, Some(Rect { x: 110, y: 44, width: 120, height: 10 }));
    assert_eq!(r.counts_text, "3 (1 ahora)");
    assert_eq!(r.counts_x, 234);

    let r = &d.rows[1];
    assert_eq!(r.color, 4);
    assert_eq!(r.y, 78);
    assert_eq!(r.name_text, "Azul      ");
    assert_eq!(r.pct, 25);
    assert_eq!(r.bar_len, 40);
    assert_eq!(r.bar, Some(Rect { x: 110, y: 68, width: 40, height: 10 }));
    assert_eq!(r.counts_text, "1 (0 ahora)");
    assert_eq!(r.counts_x, 154);

    assert_eq!(d.footer_y, 54 + 2 * 24 + 14);
}

#[test]
fn nothing_seen_no_rows() {
    let colors = get_color_ranges();
    let none = vec![None; 8];
    let d = dashboard_layout(&colors, &none, &none);
    assert!(d.rows.is_empty());
    let zeros = vec![Some(0); 8];
    let d = dashboard_layout(&colors, &zeros, &zeros);
    assert!(d.rows.is_empty());
    assert_eq!(d.total, 0);
    assert_eq!(d.footer_y, 68);
}

#[test]
fn a_tiny_share_has_no_bar() {
    let colors = get_color_ranges();
    let mut totals = vec![None; 8];
    totals[2] = Some(1);
    totals[7] = Some(199);
    let d = dashboard_layout(&colors, &totals, &vec![None; 8]);
    assert_eq!(d.rows.len(), 2);
    assert_eq!(d.rows[0].name_text, "Amarillo  ");
    assert_eq!(d.rows[0].pct, 0);
    assert_eq!(d.rows[0].bar_len, 0);
    assert_eq!(d.rows[0].bar, None);
    assert_eq!(d.rows[0].counts_x, 114);
    assert_eq!(d.rows[1].pct, 99);
    assert_eq!(d.rows[1].bar_len, 158);
}

#[test]
fn a_colour_seen_only_in_this_frame_has_a_row() {
    let colors = get_color_ranges();
    let mut frame = vec![None; 8];
    frame[1] = Some(2);
    let d = dashboard_layout(&colors, &vec![None; 8], &frame);
    assert_eq!(d.rows.len(), 1);
    assert_eq!(d.rows[0].color, 1);
    assert_eq!(d.rows[0].pct, 0);
    assert_eq!(d.rows[0].bar, None);
    assert_eq!(d.rows[0].counts_text, "0 (2 ahora)");
}
