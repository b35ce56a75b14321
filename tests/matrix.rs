use terminal::Matrix;

#[test]
fn test_new_iter() {
    let words = [
        "favored", "thirsty", "whoever", "ghengis", "mounted", "freedom",
    ];
    // Convert words to iterator of chars
    let chars = words.iter().map(|s| s.chars()).collect::<Vec<_>>();
    let chars = chars.into_iter().flatten().collect::<Vec<_>>();
    let m = Matrix::new_iter(chars, 6, 7);

    println!("{:?}", m);

    // Test columnt
    assert_eq!(m.column(0).into_iter().collect::<String>(), "ftwgmf".to_string());

    // Test row
    assert_eq!(m.row(2).into_iter().collect::<String>(), "whoeve".to_string());
}

#[test]
fn test_new() {
    let m: Matrix<usize> = Matrix::new(6, 7);
    println!("{:?}", m);
    assert_eq!(m.num_rows(), 6);
    assert_eq!(m.num_cols(), 7);
    assert_eq!(m.get(5, 6), 0);
}

#[test]
fn test_fill() {
    let mut m: Matrix<i32> = Matrix::new(3, 3);
    let f = |(i, j): (usize, usize)| (i + j) as i32;
    m.fill(f);
    println!("{:?}", m);
    assert_eq!(m.get(0, 0), 0);
    assert_eq!(m.get(1, 2), 3);
    assert_eq!(m.get(2, 2), 4);
}

#[test]
fn fill_diag_mirrors_and_keeps_the_diagonal() {
    let mut m: Matrix<i32> = Matrix::new_with(3, 3, -1);
    m.fill_diag(|(i, j): (usize, usize)| (10 * i + j) as i32);
    assert_eq!(m.get(1, 0), 10);
    assert_eq!(m.get(0, 1), 10);
    assert_eq!(m.get(2, 1), 21);
    assert_eq!(m.get(1, 2), 21);
    assert_eq!(m.get(2, 0), 20);
    assert_eq!(m.get(0, 2), 20);
    for i in 0..3 {
        assert_eq!(m.get(i, i), -1);
    }
}

#[test]
fn set_changes_one_cell() {
    let mut m = Matrix::new_with(2, 3, 0u8);
    m.set(1, 2, 9);
    assert_eq!(m.get(1, 2), 9);
    assert_eq!(m.column(2), vec![0, 9]);
    assert_eq!(m.row(1), vec![0, 0]);
}
