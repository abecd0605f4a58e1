use astra::css::{Color, Unit, Value};
use astra::render::{color_from_value, named_color, Canvas, RenderEngine};

#[test]
fn test_canvas_new_all_transparent() {
    let canvas = Canvas::new(10, 10);
    assert_eq!(canvas.pixels.len(), 10 * 10 * 4);
    assert!(canvas.pixels.iter().all(|&b| b == 0));
}

#[test]
fn test_render_engine_new() {
    let engine = RenderEngine::new(800, 600);
    assert_eq!(engine.get_pixels().len(), 800 * 600 * 4);
}

#[test]
fn fill_rect_paints_exactly_the_rectangle() {
    let mut canvas = Canvas::new(4, 3);
    canvas.fill_rect(1, 1, 3, 2, [9, 8, 7, 6]);
    for row in 0..3u32 {
        for col in 0..4u32 {
            let i = ((row * 4 + col) * 4) as usize;
            let px = &canvas.pixels[i..i + 4];
            if row == 1 && (col == 1 || col == 2) {
                assert_eq!(px, &[9, 8, 7, 6]);
            } else {
                assert_eq!(px, &[0, 0, 0, 0]);
            }
        }
    }
}

#[test]
fn fill_rect_with_empty_range_changes_nothing() {
    let mut engine = RenderEngine::new(2, 2);
    engine.fill_rect(2, 0, 1, 2, [1, 1, 1, 1]);
    assert!(engine.get_pixels().iter().all(|&b| b == 0));
    engine.fill_rect(0, 0, 2, 2, [5, 5, 5, 5]);
    assert!(engine.get_pixels().iter().all(|&b| b == 5));
}

#[test]
fn named_colors() {
    assert_eq!(named_color("Red"), Some([255, 0, 0, 255]));
    assert_eq!(named_color("grey"), Some([128, 128, 128, 255]));
    assert_eq!(named_color("GRAY"), Some([128, 128, 128, 255]));
    assert_eq!(named_color("magenta"), Some([255, 0, 255, 255]));
    assert_eq!(named_color("teal"), None);
}

#[test]
fn colors_from_values() {
    let c = Value::ColorValue(Color { r: 1, g: 2, b: 3, a: 4 });
    assert_eq!(color_from_value(&c), Some([1, 2, 3, 4]));
    assert_eq!(color_from_value(&Value::Keyword("cyan".to_string())), Some([0, 255, 255, 255]));
    assert_eq!(color_from_value(&Value::Length("3".to_string(), Unit::Px)), None);
}
