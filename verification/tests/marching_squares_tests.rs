use swarm_rs::marching_squares::{
    cell_polygon_index, pick_bits, trace_line_single, trace_lines, AsBoolField, BoolField, _border_pixel,
};
use swarm_rs::shape::Shape;

/// A field of numbers, read as `true` where a number exceeds the threshold.
struct F64Field<'a> {
    field: &'a [f64],
    shape: Shape,
    threshold: f64,
}

impl<'a> F64Field<'a> {
    fn new(field: &'a [f64], shape: Shape, threshold: f64) -> Self {
        Self { field, shape, threshold }
    }
}

impl<'a> AsBoolField for F64Field<'a> {
    fn readable(&self) -> bool {
        self.shape.0 >= 0 && self.shape.1 >= 0 && self.field.len() >= (self.shape.0 * self.shape.1) as usize
    }

    fn value_at(&self, pos: (isize, isize)) -> bool {
        self.get(pos)
    }

    fn shape_spec(&self) -> Shape {
        self.shape
    }

    fn get(&self, pos: (isize, isize)) -> bool {
        self.threshold < self.field[pos.0 as usize + pos.1 as usize * self.shape.0 as usize]
    }

    fn shape(&self) -> Shape {
        self.shape
    }
}

#[test]
fn test_bits() {
    assert_eq!(pick_bits(&F64Field::new(&[0., 0., 0., 0.], (2, 2), 0.5), (0, 0)), 0);
    assert_eq!(pick_bits(&F64Field::new(&[1., 0., 0., 0.], (2, 2), 0.5), (0, 0)), 1);
    assert_eq!(pick_bits(&F64Field::new(&[0., 1., 0., 0.], (2, 2), 0.5), (0, 0)), 2);
    assert_eq!(pick_bits(&F64Field::new(&[0., 0., 1., 0.], (2, 2), 0.5), (0, 0)), 8);
    assert_eq!(pick_bits(&F64Field::new(&[0., 0., 0., 1.], (2, 2), 0.5), (0, 0)), 4);
}

#[test]
fn bits_follow_the_corners() {
    let f = [false, false, false, false];
    assert_eq!(pick_bits(&BoolField::new(&f, (2, 2)), (0, 0)), 0);
    let f = [true, false, false, false];
    assert_eq!(pick_bits(&BoolField::new(&f, (2, 2)), (0, 0)), 1);
    let f = [false, true, false, false];
    assert_eq!(pick_bits(&BoolField::new(&f, (2, 2)), (0, 0)), 2);
    let f = [false, false, true, false];
    assert_eq!(pick_bits(&BoolField::new(&f, (2, 2)), (0, 0)), 8);
    let f = [false, false, false, true];
    assert_eq!(pick_bits(&BoolField::new(&f, (2, 2)), (0, 0)), 4);
}

#[test]
fn bits_outside_are_false() {
    let f = [true; 4];
    let field = BoolField::new(&f, (2, 2));
    assert_eq!(pick_bits(&field, (1, 1)), 1);
    assert_eq!(pick_bits(&field, (-1, -1)), 4);
    assert_eq!(pick_bits(&field, (5, 5)), 0);
    assert!(!field.get_or_false((2, 0)));
    assert!(field.get_or_false((1, 1)));
}

#[test]
fn polygon_indices() {
    assert_eq!(cell_polygon_index(1), 12);
    assert_eq!(cell_polygon_index(14), 12);
    assert_eq!(cell_polygon_index(13), 16);
    assert_eq!(cell_polygon_index(11), 20);
    assert_eq!(cell_polygon_index(7), 24);
    assert_eq!(cell_polygon_index(12), 4);
    assert_eq!(cell_polygon_index(6), 8);
    assert_eq!(cell_polygon_index(5), 0);
    assert_eq!(cell_polygon_index(15), 0);
}

#[test]
fn border_pixels() {
    assert!(!_border_pixel(0));
    assert!(!_border_pixel(15));
    assert!(_border_pixel(1));
    assert!(_border_pixel(14));
}

/// A 4x4 field with a filled 2x2 block in the middle.
fn block() -> Vec<bool> {
    let mut f = vec![false; 16];
    for (x, y) in [(1, 1), (2, 1), (1, 2), (2, 2)] {
        f[x + y * 4] = true;
    }
    f
}

#[test]
fn trace_around_a_block() {
    let f = block();
    let field = BoolField::new(&f, (4, 4));
    let line = trace_line_single(&field, [0, 0]).unwrap();
    assert_eq!(line[0], [0, 0]);
    for w in line.windows(2) {
        let dx = (w[0][0] as isize - w[1][0] as isize).abs();
        let dy = (w[0][1] as isize - w[1][1] as isize).abs();
        assert_eq!(dx + dy, 1, "{line:?}");
    }
    for p in &line {
        let b = pick_bits(&field, (p[0] as isize, p[1] as isize));
        assert!(1 <= b && b <= 14);
    }
    // eight squares around the block; the start is entered once more, from its other side
    assert_eq!(line.len(), 9, "{line:?}");
    assert_eq!(line[8], [0, 0]);
}

#[test]
fn no_trace_from_empty_or_full_squares() {
    let f = block();
    let field = BoolField::new(&f, (4, 4));
    assert_eq!(trace_line_single(&field, [3, 3]), None);
    let full = [true; 16];
    assert_eq!(trace_line_single(&BoolField::new(&full, (4, 4)), [1, 1]), None);
}

#[test]
fn no_trace_from_a_saddle() {
    // bits 5: corners 0 and 2 set
    let f = [true, false, false, true];
    let field = BoolField::new(&f, (2, 2));
    assert_eq!(pick_bits(&field, (0, 0)), 5);
    assert_eq!(trace_line_single(&field, [0, 0]), None);
}

#[test]
fn trace_lines_finds_one_contour_per_block() {
    let f = block();
    let field = BoolField::new(&f, (4, 4));
    let lines = trace_lines(&field);
    assert_eq!(lines.len(), 1);
    assert_eq!(lines[0].len(), 9);

    let mut two = vec![false; 64];
    two[1 + 8] = true;
    two[6 + 6 * 8] = true;
    let field = BoolField::new(&two, (8, 8));
    let lines = trace_lines(&field);
    assert_eq!(lines.len(), 2, "{lines:?}");
}

#[test]
fn trace_lines_of_an_empty_field() {
    let f = vec![false; 9];
    assert!(trace_lines(&BoolField::new(&f, (3, 3))).is_empty());
    let f: Vec<bool> = vec![];
    assert!(trace_lines(&BoolField::new(&f, (0, 0))).is_empty());
}
