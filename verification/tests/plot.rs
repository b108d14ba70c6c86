use kwik::plot::{
    color_at, figure_layout, line_style_at, memory_scale, number_denominator, number_label, time_scale,
    unit_label, LineStyle,
};

#[test]
fn plot_cycles_styles_and_colors() {
    assert_eq!(line_style_at(0), LineStyle::Solid);
    assert_eq!(line_style_at(4), LineStyle::Dot);
    assert_eq!(line_style_at(5), LineStyle::Solid);
    assert_eq!(color_at(0), "#c4342b");
    assert_eq!(color_at(6), "#47a8bd");
    assert_eq!(color_at(7), "#c4342b");
}

#[test]
fn plot_memory_scale() {
    let s = memory_scale(1000);
    assert_eq!((s.unit, s.denominator), ("B", 1));
    let s = memory_scale(3 * 1024 * 1024);
    assert_eq!((s.unit, s.denominator), ("MiB", 1024 * 1024));
}

#[test]
fn plot_time_scale() {
    let s = time_scale(999);
    assert_eq!((s.unit, s.denominator), ("ms", 1));
    let s = time_scale(59_999);
    assert_eq!((s.unit, s.denominator), ("s", 1000));
    let s = time_scale(3_600_000);
    assert_eq!((s.unit, s.denominator), ("hrs", 3_600_000));
    let s = time_scale(u64::MAX);
    assert_eq!((s.unit, s.denominator), ("days", 86_400_000));
}

#[test]
fn plot_number_scale_and_labels() {
    assert_eq!(number_denominator(9_999), 1);
    assert_eq!(number_denominator(10_000), 10_000);
    assert_eq!(number_denominator(123_456), 100_000);
    assert_eq!(number_label("Count", 100_000), "Count (x100,000)");
    assert_eq!(number_label("Count", 1), "Count");
    assert_eq!(unit_label("Size", "KiB"), "Size (KiB)");
}

#[test]
fn plot_figure_layout() {
    assert_eq!(figure_layout(0, 1), (0, 0));
    assert_eq!(figure_layout(1, 1), (1, 1));
    assert_eq!(figure_layout(3, 1), (3, 1));
    assert_eq!(figure_layout(3, 4), (1, 3));
    assert_eq!(figure_layout(5, 2), (3, 2));
    assert_eq!(figure_layout(6, 3), (2, 3));
}
