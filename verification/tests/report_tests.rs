use std::collections::HashMap;

use proyecto_opencv::colors::get_color_ranges;
use proyecto_opencv::report::{build_report, report_order};

/// The report in the documented layout, for a map of counts without ties.
fn expected(counts: &HashMap<&str, usize>, frames: usize, elapsed: &str) -> String {
    let mut output = String::new();
    output.push_str(&format!("{}\n", "═".repeat(52)));
    output.push_str("      REPORTE FINAL — CONTADOR DE COLORES\n");
    output.push_str(&format!("{}\n", "═".repeat(52)));
    output.push_str(&format!("  Frames procesados : {}\n", frames));
    output.push_str(&format!("  Tiempo total      : {} segundos\n\n", elapsed));
    output.push_str("  OBJETOS DETECTADOS POR COLOR:\n");
    output.push_str(&format!("  {}\n", "─".repeat(40)));
    let total: usize = counts.values().sum();
    let mut sorted: Vec<(&&str, &usize)> = counts.iter().collect();
    sorted.sort_by(|a, b| b.1.cmp(a.1));
    for (nombre, cantidad) in &sorted {
        let pct = if total > 0 { *cantidad * 100 / total } else { 0 };
        output.push_str(&format!("  {:<12} {:>5} detecciones {:>3}%\n", nombre, cantidad, pct));
    }
    if let Some((nombre, _)) = sorted.first() {
        output.push_str(&format!("\n  COLOR MÁS FRECUENTE: {}\n", nombre.to_uppercase()));
    }
    output.push_str(&format!("{}\n", "═".repeat(52)));
    output
}

/// The map of counts by name, for the entries of `totals`.
fn counts_by_name(totals: &[Option<usize>]) -> HashMap<&'static str, usize> {
    let colors = get_color_ranges();
    let mut m = HashMap::new();
    for (c, n) in colors.iter().zip(totals) {
        if let Some(n) = n {
            m.insert(c.name, *n);
        }
    }
    m
}

#[test]
fn report_of_the_documented_run() {
    let colors = get_color_ranges();
    let totals = vec![
        Some(6687),
        Some(15185),
        Some(48),
        Some(1327),
        Some(3762),
        Some(27),
        Some(19631),
        Some(17423),
    ];
    let r = build_report(&colors, &totals, 4529, "55.9");
    let eq = "═".repeat(52);
    let want = [
        eq.as_str(),
        "      REPORTE FINAL — CONTADOR DE COLORES",
        eq.as_str(),
        "  Frames procesados : 4529",
        "  Tiempo total      : 55.9 segundos",
        "",
        "  OBJETOS DETECTADOS POR COLOR:",
        &format!("  {}", "─".repeat(40)),
        "  Blanco       19631 detecciones  30%",
        "  Negro        17423 detecciones  27%",
        "  Naranja      15185 detecciones  23%",
        "  Rojo          6687 detecciones  10%",
        "  Azul          3762 detecciones   5%",
        "  Verde         1327 detecciones   2%",
        "  Amarillo        48 detecciones   0%",
        "  Violeta         27 detecciones   0%",
        "",
        "  COLOR MÁS FRECUENTE: BLANCO",
        eq.as_str(),
    ]
    .join("\n")
        + "\n";
    assert_eq!(r, want);
    assert_eq!(r, expected(&counts_by_name(&totals), 4529, "55.9"));
    assert_eq!(r.lines().count(), 9 + 8 + 2);
}

#[test]
fn a_colour_with_no_detections_still_has_its_line() {
    let colors = get_color_ranges();
    let mut totals = vec![None; 8];
    totals[0] = Some(0);
    let r = build_report(&colors, &totals, 3, "3.0");
    assert!(r.contains("  Frames procesados : 3\n  Tiempo total      : 3.0 segundos\n"));
    assert!(r.contains(&format!("  Rojo{}0 detecciones   0%\n", " ".repeat(13))));
    assert!(r.contains("\n  COLOR MÁS FRECUENTE: ROJO\n"));
    assert_eq!(r, expected(&counts_by_name(&totals), 3, "3.0"));
    assert_eq!(r.lines().count(), 9 + 1 + 2);
}

#[test]
fn report_matches_the_documented_layout_on_varied_maps() {
    let colors = get_color_ranges();
    let cases: Vec<Vec<Option<usize>>> = vec![
        vec![None, None, None, None, None, None, None, Some(7)],
        vec![Some(5), Some(1), Some(12), None, Some(3), Some(99), None, Some(40)],
        vec![Some(123456), Some(2), Some(0), None, None, None, Some(1), None],
        vec![Some(1), Some(2), Some(3), Some(4), Some(5), Some(6), Some(7), Some(8)],
        vec![None, Some(0), None, None, None, None, None, None],
    ];
    for totals in cases {
        let r = build_report(&colors, &totals, 1234, "61.0");
        assert_eq!(r, expected(&counts_by_name(&totals), 1234, "61.0"));
        let n = totals.iter().filter(|e| e.is_some()).count();
        assert_eq!(r.lines().count(), 9 + n + if n > 0 { 2 } else { 0 });
    }
}

#[test]
fn report_of_an_empty_map() {
    let colors = get_color_ranges();
    let r = build_report(&colors, &vec![None; 8], 0, "0.0");
    assert_eq!(r, expected(&HashMap::new(), 0, "0.0"));
    assert!(!r.contains("MÁS FRECUENTE"));
    assert_eq!(r.lines().count(), 9);
}

#[test]
fn ties_keep_table_order() {
    let totals = vec![Some(2), None, Some(5), Some(2), Some(0), Some(5), Some(1), None];
    assert_eq!(report_order(&totals), vec![2, 5, 0, 3, 6, 4]);
    let colors = get_color_ranges();
    let r = build_report(&colors, &totals, 3, "1.0");
    assert!(r.contains("COLOR MÁS FRECUENTE: AMARILLO\n"));
    let at = |name: &str| r.find(&format!("  {} ", name)).unwrap();
    assert!(at("Amarillo") < at("Violeta"));
    assert!(at("Violeta") < at("Rojo"));
    assert!(at("Rojo") < at("Verde"));
    assert!(at("Verde") < at("Blanco"));
    assert!(at("Blanco") < at("Azul"));
}

#[test]
fn order_lists_each_colour_with_an_entry_once() {
    assert_eq!(report_order(&vec![None, None, None]), Vec::<usize>::new());
    assert_eq!(report_order(&vec![Some(1), Some(3), Some(2)]), vec![1, 2, 0]);
    assert_eq!(report_order(&vec![Some(4), Some(4), Some(4), None]), vec![0, 1, 2]);
    assert_eq!(report_order(&vec![Some(0), None, Some(0)]), vec![0, 2]);
}
