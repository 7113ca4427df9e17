use ray_tracer::canvas::{render_order, Canvas};

type Color = (f64, f64, f64);

const BLACK: Color = (0.0, 0.0, 0.0);

#[test]
fn creating_a_canvas() {
    let width = 10;
    let height = 20;

    let canvas = Canvas::new(width, height, BLACK);

    assert_eq!(canvas.width(), width);
    assert_eq!(canvas.height(), height);

    for x in 0..height {
        for y in 0..width {
            assert_eq!(canvas.pixel_at(y, x), BLACK);
        }
    }
}

#[test]
fn write_a_pixel() {
    let color = (1.0, 0.0, 0.0);
    let mut canvas = Canvas::new(10, 20, BLACK);

    canvas.write_pixel(color, 2, 3);

    assert_eq!(canvas.pixel_at(2, 3), color);
    assert_eq!(canvas.pixel_at(3, 2), BLACK);
}

#[test]
fn writing_off_the_canvas_changes_nothing() {
    let mut canvas = Canvas::new(4, 3, BLACK);
    canvas.write_pixel((1.0, 1.0, 1.0), -1, 0);
    canvas.write_pixel((1.0, 1.0, 1.0), 0, -1);
    canvas.write_pixel((1.0, 1.0, 1.0), 4, 0);
    canvas.write_pixel((1.0, 1.0, 1.0), 0, 3);
    for y in 0..3 {
        for x in 0..4 {
            assert_eq!(canvas.pixel_at(x, y), BLACK);
        }
    }
}

#[test]
fn pixels_are_visited_row_by_row() {
    assert_eq!(
        render_order(3, 2),
        vec![(0, 0), (1, 0), (2, 0), (0, 1), (1, 1), (2, 1)]
    );
    assert!(render_order(0, 5).is_empty());
    assert!(render_order(5, 0).is_empty());
    let order = render_order(201, 101);
    assert_eq!(order.len(), 201 * 101);
    assert_eq!(order[100 * 201 + 50], (50, 100));
}
