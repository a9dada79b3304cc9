use square_one::cube::{Piece, SqOne};

// Creates a new Square One and asserts that the cube is in a solved
// configuration.
#[test]
fn create_solved_cube() {
    let test_cube = SqOne::new();
    assert_eq!(test_cube.top_offset, 0);
    assert_eq!(test_cube.bottom_offset, 0);
    assert_eq!(test_cube.middle, false);
}

#[test]
fn flip_solved_cube() {
    let mut test_cube = SqOne::new();
    test_cube.flip();
}

#[test]
fn twist_cube() {
    let mut test_cube = SqOne::new();
    test_cube.twist(4, -1);
    test_cube.flip();
    test_cube.twist(-3, 6);
    test_cube.flip();
}

#[test]
fn scramble_cube() {
    let mut test_cube = SqOne::new();
    let scramble = test_cube.scramble();
    println!("{:?}", scramble);
}

fn all_pieces_possible(layer: &Vec<Option<Piece>>) -> bool {
    layer.iter().all(|slot| match slot {
        Some(Piece::Edge(e)) => e.possible(),
        Some(Piece::Corner(c)) => c.possible(),
        None => true,
    })
}

// Every piece of a freshly generated cube satisfies the color
// invariant, and each layer has twelve slots.
#[test]
fn solved_cube_pieces_possible() {
    let cube = SqOne::new();
    assert_eq!(cube.top.len(), 12);
    assert_eq!(cube.bottom.len(), 12);
    assert!(all_pieces_possible(&cube.top));
    assert!(all_pieces_possible(&cube.bottom));
}

// Twist amounts wrap into the symmetric range [-5, 6], and twisting
// by a full turn changes nothing.
#[test]
fn twist_normalizes_offsets() {
    let mut cube = SqOne::new();
    cube.twist(7, 0);
    assert_eq!(cube.top_offset, -5);
    cube.twist(12, -12);
    assert_eq!(cube.top_offset, -5);
    assert_eq!(cube.bottom_offset, 0);
    cube.twist(0, 5);
    assert_eq!(cube.bottom_offset, -5);
}

// Flip legality only depends on the offset modulo a full turn.
#[test]
fn can_flip_layer_wraps() {
    let layer = SqOne::gen_layer(true);
    for offset in -5i8..=6 {
        assert_eq!(
            SqOne::can_flip_layer(&layer, offset),
            SqOne::can_flip_layer(&layer, offset - 12)
        );
    }
}

// Flipping a solved cube twice restores every slot and the parity
// flag.
#[test]
fn double_flip_restores_layers() {
    let solved = SqOne::new();
    let mut cube = SqOne::new();
    cube.flip();
    cube.flip();
    assert_eq!(cube.top, solved.top);
    assert_eq!(cube.bottom, solved.bottom);
    assert_eq!(cube.middle, false);
}

// Twisting permutes which offset indexes which slot, never the slot
// contents.
#[test]
fn twist_leaves_layer_contents() {
    let solved = SqOne::new();
    let mut cube = SqOne::new();
    cube.twist(3, 2);
    cube.twist(-1, 6);
    assert_eq!(cube.top, solved.top);
    assert_eq!(cube.bottom, solved.bottom);
}

// A flip at an illegal cut (a corner sits on the cut line) leaves the
// state bit for bit identical.
#[test]
fn illegal_flip_is_noop() {
    let mut reference = SqOne::new();
    reference.twist(2, 0);
    let mut cube = SqOne::new();
    cube.twist(2, 0);
    assert!(!SqOne::can_flip_layer(&cube.top, cube.top_offset));
    cube.flip();
    assert_eq!(cube.top, reference.top);
    assert_eq!(cube.bottom, reference.bottom);
    assert_eq!(cube.top_offset, reference.top_offset);
    assert_eq!(cube.bottom_offset, reference.bottom_offset);
    assert_eq!(cube.middle, reference.middle);
}

// A scramble has exactly twenty pairs, the top amount in [-5, 6], the
// bottom amount in [-6, 5], and a zero top amount is never paired
// with a zero bottom amount.
#[test]
fn scramble_shape() {
    let mut cube = SqOne::new();
    let scramble = cube.scramble();
    assert_eq!(scramble.len(), 20);
    assert_eq!(cube.middle, false);
    for &(t, b) in &scramble {
        assert!(-5 <= t && t <= 6);
        assert!(-6 <= b && b <= 5);
        if t == 0 {
            assert!(b != 0);
        }
    }
}

// The returned pairs are a faithful trace: replaying them as
// twist-then-flip moves on a fresh solved cube reproduces the
// scrambled state exactly.
#[test]
fn scramble_trace_replays() {
    let mut cube = SqOne::new();
    let turns = cube.scramble();
    let mut replay = SqOne::new();
    for &(t, b) in &turns {
        replay.twist(t, b);
        replay.flip();
    }
    assert_eq!(replay.top, cube.top);
    assert_eq!(replay.bottom, cube.bottom);
    assert_eq!(replay.top_offset, cube.top_offset);
    assert_eq!(replay.bottom_offset, cube.bottom_offset);
    assert_eq!(replay.middle, cube.middle);
}

// Scrambling a solved cube never manufactures an impossible piece.
#[test]
fn scramble_preserves_piece_invariant() {
    let mut cube = SqOne::new();
    cube.scramble();
    assert_eq!(cube.top.len(), 12);
    assert_eq!(cube.bottom.len(), 12);
    assert!(all_pieces_possible(&cube.top));
    assert!(all_pieces_possible(&cube.bottom));
}
