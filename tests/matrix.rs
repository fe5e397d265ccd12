use seqdist::matrix::Matrix;

#[test]
fn test_matrix() {
    let mut matrix = Matrix::<f64>::new(11, 10, 8184.0);
    matrix.set(5, 0, 218334.0);
    matrix.set(9, 4, 21833423.0);
    matrix.set(9, 9, 0.0);

    assert_eq!(matrix.get(9, 9), &0.0);
    assert_eq!(matrix.get(5, 0), &218334.0);
    assert_eq!(matrix.get(9, 4), &21833423.0);
    assert_eq!(matrix.get(0, 0), &8184.0);

    matrix.set(0, 3, -0.1);
    assert_eq!(matrix.get(0, 3), &-0.1);
    assert_eq!(*matrix.width(), 11);
    assert_eq!(*matrix.height(), 10);
}

#[test]
fn new_fills_every_cell() {
    let m = Matrix::<i32>::new(3, 2, 7);
    for x in 0..3 {
        for y in 0..2 {
            assert_eq!(*m.get(x, y), 7);
        }
    }
}

#[test]
fn set_changes_one_cell() {
    let mut m = Matrix::<i32>::new(3, 2, 0);
    m.set(2, 1, 5);
    assert_eq!(*m.get(2, 1), 5);
    assert_eq!(*m.get(1, 2 - 1), 0);
    assert_eq!(*m.get(2, 0), 0);
}

#[test]
fn set_on_a_non_square_matrix() {
    let mut m = Matrix::<i32>::new(4, 1, 0);
    m.set(3, 0, 9);
    assert_eq!(*m.get(3, 0), 9);
}

fn text_matrix() -> Matrix<String> {
    let mut m = Matrix::new(3, 2, String::from("1"));
    m.set(1, 0, String::from("100"));
    m.set(2, 1, String::from("22"));
    m
}

#[test]
fn render_aligns_columns() {
    let m = text_matrix();
    assert_eq!(m.render(), "1, 100,  1\n1,   1, 22\n");
}

#[test]
fn render_twice_is_the_same() {
    let m = text_matrix();
    assert_eq!(m.render(), m.render());
}

#[test]
fn render_empty_matrix() {
    let m = Matrix::new(0, 3, String::from("x"));
    assert_eq!(m.render(), "");
    let m = Matrix::new(3, 0, String::from("x"));
    assert_eq!(m.render(), "");
}

#[test]
fn render_single_cell() {
    let m = Matrix::new(1, 1, String::from("0.4"));
    assert_eq!(m.render(), "0.4\n");
}
