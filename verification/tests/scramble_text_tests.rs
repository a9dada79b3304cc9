use square_one::Scramble;

// The rendered text shows each pair in tuple form, joined by " / "
// with no trailing separator.
#[test]
fn render_two_pairs() {
    let scramble = Scramble { turns: vec![(1, -2), (0, 3)] };
    assert_eq!(scramble.render(), "(1, -2) / (0, 3)");
}

#[test]
fn render_single_pair() {
    let scramble = Scramble { turns: vec![(-6, 6)] };
    assert_eq!(scramble.render(), "(-6, 6)");
}

#[test]
fn render_scramble_output() {
    let mut cube = square_one::cube::SqOne::new();
    let turns = cube.scramble();
    let text = Scramble { turns }.render();
    assert_eq!(text.matches(" / ").count(), 19);
    assert!(text.starts_with('('));
    assert!(text.ends_with(')'));
}
