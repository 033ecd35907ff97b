use rand::rngs::SmallRng;
use rand::SeedableRng;

use tui48::engine::board::Board;
use tui48::engine::round::{AnimationHint, Hint, Idx, Indices, Round};
use tui48::tui::geometry::Direction;

const DIRECTIONS: [Direction; 4] = [
    Direction::Left,
    Direction::Right,
    Direction::Up,
    Direction::Down,
];

fn rng() -> SmallRng {
    SmallRng::seed_from_u64(42)
}

fn round(slots: [[u16; 4]; 4], score: u16) -> Round {
    Round { slots, score }
}

fn tile_count(r: &Round) -> usize {
    r.slots.iter().flatten().filter(|v| **v != 0).count()
}

fn tile_sum(r: &Round) -> u32 {
    r.slots.iter().flatten().map(|v| *v as u32).sum()
}

#[test]
fn round_clone() {
    let initial = Round::default();
    let cloned = initial.clone();
    assert_eq!(initial, cloned);
    assert_eq!(initial.score, cloned.score);

    let legacy = tui48::round::Round {
        score: 0,
        slots: [[0, 0, 0, 0], [0, 0, 0, 0], [0, 0, 0, 0], [0, 0, 0, 0]],
    };
    let cloned = legacy.clone();
    assert_eq!(legacy, cloned);
    assert_eq!(legacy.score, cloned.score);
}

#[test]
fn round_shift_empty() {
    let initial = Round::default();
    for direction in DIRECTIONS {
        let mut shifted = initial.clone();
        let mut rng = rng();
        let hint = shifted.shift(&mut rng, &direction);
        assert!(hint.is_none(), "shifting {:?}", direction);
        assert_eq!(initial, shifted, "shifting {:?}", direction);
        assert_eq!(initial.score, shifted.score, "shifting {:?}", direction);
    }

    let legacy = tui48::round::Round {
        score: 0,
        slots: [[0, 0, 0, 0], [0, 0, 0, 0], [0, 0, 0, 0], [0, 0, 0, 0]],
    };
    for direction in DIRECTIONS {
        let mut shifted = legacy.clone();
        let hint = shifted.shift(&direction);
        assert!(hint.is_none(), "shifting {:?}", direction);
        assert_eq!(legacy, shifted, "shifting {:?}", direction);
        assert_eq!(legacy.score, shifted.score, "shifting {:?}", direction);
    }
}

/// The slide cases of the game: the expected boards before the new tile appears.
fn slide_cases() -> Vec<(Direction, [[u16; 4]; 4], [[u16; 4]; 4])> {
    let identity = [[1, 0, 0, 0], [0, 1, 0, 0], [0, 0, 1, 0], [0, 0, 0, 1]];
    let flipped = [[0, 0, 0, 1], [0, 0, 1, 0], [0, 1, 0, 0], [1, 0, 0, 0]];
    let left = [[1, 0, 0, 0], [1, 0, 0, 0], [1, 0, 0, 0], [1, 0, 0, 0]];
    let right = [[0, 0, 0, 1], [0, 0, 0, 1], [0, 0, 0, 1], [0, 0, 0, 1]];
    let up = [[1, 1, 1, 1], [0, 0, 0, 0], [0, 0, 0, 0], [0, 0, 0, 0]];
    let down = [[0, 0, 0, 0], [0, 0, 0, 0], [0, 0, 0, 0], [1, 1, 1, 1]];
    vec![
        (Direction::Left, identity, left),
        (Direction::Right, identity, right),
        (Direction::Up, identity, up),
        (Direction::Down, identity, down),
        (Direction::Left, flipped, left),
        (Direction::Right, flipped, right),
        (Direction::Up, flipped, up),
        (Direction::Down, flipped, down),
        (Direction::Left, right, left),
        (Direction::Right, left, right),
        (Direction::Down, up, down),
        (Direction::Up, down, up),
        (
            Direction::Left,
            [[0, 1, 2, 3], [0, 0, 0, 0], [0, 0, 0, 0], [0, 0, 0, 0]],
            [[1, 2, 3, 0], [0, 0, 0, 0], [0, 0, 0, 0], [0, 0, 0, 0]],
        ),
    ]
}

#[test]
fn slide_moves_tiles_to_the_far_side() {
    for (direction, initial, expected) in slide_cases() {
        let mut r = round(initial, 0);
        let hint = r.slide(&direction);
        assert_eq!(r, round(expected, 0), "sliding {:?}", direction);
        assert!(hint.changed());
    }
}

/// The merge cases of the game: (direction, before, score before, after the slide, score).
fn combine_cases() -> Vec<(Direction, [[u16; 4]; 4], u16, [[u16; 4]; 4], u16)> {
    let z = [0, 0, 0, 0];
    vec![
        (Direction::Left, [[1, 1, 1, 1], z, z, z], 0, [[2, 2, 0, 0], z, z, z], 2),
        (Direction::Left, [[2, 2, 0, 2], z, z, z], 2, [[4, 2, 0, 0], z, z, z], 4),
        (Direction::Left, [[2, 0, 2, 2], z, z, z], 2, [[4, 2, 0, 0], z, z, z], 4),
        (Direction::Left, [[4, 2, 0, 2], z, z, z], 4, [[4, 4, 0, 0], z, z, z], 6),
        (Direction::Left, [[2, 4, 8, 16], z, z, z], 4, [[2, 4, 8, 16], z, z, z], 4),
        (Direction::Right, [[1, 1, 1, 1], z, z, z], 0, [[0, 0, 2, 2], z, z, z], 2),
        (Direction::Right, [[2, 2, 0, 2], z, z, z], 2, [[0, 0, 2, 4], z, z, z], 4),
        (Direction::Right, [[4, 2, 0, 2], z, z, z], 4, [[0, 0, 4, 4], z, z, z], 6),
        (Direction::Right, [[2, 4, 8, 16], z, z, z], 4, [[2, 4, 8, 16], z, z, z], 4),
        (Direction::Left, [[2, 2, 2, 2], z, z, z], 0, [[4, 4, 0, 0], z, z, z], 4),
    ]
}

#[test]
fn slide_merges_equal_tiles_once() {
    for (direction, initial, score, expected, expected_score) in combine_cases() {
        let mut r = round(initial, score);
        let _ = r.slide(&direction);
        assert_eq!(r, round(expected, expected_score), "sliding {:?} {:?}", direction, initial);
    }
}

#[test]
fn shift_adds_one_tile_at_an_empty_row_end() {
    for (direction, initial, score, expected, expected_score) in combine_cases() {
        let mut r = round(initial, score);
        let mut rng = rng();
        let hint = r.shift(&mut rng, &direction);
        if initial == expected {
            assert!(hint.is_none());
            assert_eq!(r, round(initial, score));
            continue;
        }
        let hint = hint.expect("a changed round gives hints");
        let hints = hint.hints();
        let (idx, last) = *hints.last().unwrap();
        let value = r.get(&idx);
        assert!(value == 2 || value == 4);
        assert_eq!(last, Hint::NewTile(value, direction));
        assert_eq!(expected[idx.1][idx.0], 0);
        match direction {
            Direction::Left => assert_eq!(idx.0, 3),
            Direction::Right => assert_eq!(idx.0, 0),
            Direction::Up => assert_eq!(idx.1, 3),
            Direction::Down => assert_eq!(idx.1, 0),
        }
        let mut without_new = r.clone();
        without_new.set_value(&idx, 0);
        assert_eq!(without_new, round(expected, expected_score));
    }
}

#[test]
fn slide_hints_record_each_move() {
    let z = [0, 0, 0, 0];
    let mut r = round([[2, 2, 0, 2], z, z, z], 0);
    let hint = r.slide(&Direction::Left);
    assert_eq!(
        hint.hints(),
        vec![
            (Idx(1, 0), Hint::NewValueToIdx(4, Idx(0, 0))),
            (Idx(3, 0), Hint::ToIdx(Idx(1, 0))),
        ]
    );

    // the tiles of the first column fall to its bottom and merge there
    let mut r = round([[2, 0, 0, 0], [2, 0, 0, 0], z, z], 0);
    let hint = r.slide(&Direction::Down);
    assert_eq!(
        hint.hints(),
        vec![
            (Idx(0, 1), Hint::ToIdx(Idx(0, 3))),
            (Idx(0, 0), Hint::NewValueToIdx(4, Idx(0, 3))),
        ]
    );
    assert_eq!(r.slots[3][0], 4);
    assert_eq!(r.score, 2);
}

#[test]
fn slide_keeps_the_sum_of_the_tiles() {
    let boards = [
        [[2, 2, 4, 8], [0, 4, 4, 4], [2, 0, 2, 0], [8, 8, 8, 8]],
        [[1, 2, 3, 4], [4, 3, 2, 1], [0, 0, 0, 0], [16, 0, 16, 16]],
    ];
    for board in boards {
        for direction in DIRECTIONS {
            let before = round(board, 10);
            let mut r = before.clone();
            let _ = r.slide(&direction);
            assert_eq!(tile_sum(&r), tile_sum(&before));
            assert!(tile_count(&r) <= tile_count(&before));
            assert!(r.score >= before.score);
        }
    }
}

#[test]
fn shift_stays_in_range_detects_overflow() {
    let z = [0, 0, 0, 0];
    let r = round([[32768, 32768, 0, 0], z, z, z], 0);
    assert!(!r.shift_stays_in_range(&Direction::Left));
    let r = round([[4, 4, 0, 0], z, z, z], 65533);
    assert!(!r.shift_stays_in_range(&Direction::Left));
    let r = round([[4, 4, 0, 0], z, z, z], 65531);
    assert!(r.shift_stays_in_range(&Direction::Left));
    assert!(r.shift_stays_in_range(&Direction::Up));
}

#[test]
fn vacant_row_ends_lists_empty_last_slots() {
    let r = round([[0, 0, 0, 2], [0, 0, 0, 0], [1, 1, 1, 1], [0, 0, 0, 0]], 0);
    assert_eq!(r.vacant_row_ends(&Direction::Left), vec![Idx(3, 1), Idx(3, 3)]);
    assert_eq!(
        r.vacant_row_ends(&Direction::Down),
        vec![Idx(0, 0), Idx(1, 0), Idx(2, 0)]
    );
}

#[test]
fn place_new_tile_uses_the_weighted_choice() {
    let mut r = Round::default();
    let mut hint = AnimationHint::new();
    r.place_new_tile(&mut hint, &Idx(3, 2), 1, &Direction::Left);
    assert_eq!(r.slots[2][3], 4);
    assert_eq!(hint.hints(), vec![(Idx(3, 2), Hint::NewTile(4, Direction::Left))]);
    r.place_new_tile(&mut hint, &Idx(0, 0), 0, &Direction::Up);
    assert_eq!(r.slots[0][0], 2);
}

#[test]
fn indices_read_rows_towards_the_direction() {
    let r = Round::default();
    let expected_first_row = [
        (Direction::Left, [Idx(0, 0), Idx(1, 0), Idx(2, 0), Idx(3, 0)]),
        (Direction::Right, [Idx(3, 0), Idx(2, 0), Idx(1, 0), Idx(0, 0)]),
        (Direction::Up, [Idx(0, 0), Idx(0, 1), Idx(0, 2), Idx(0, 3)]),
        (Direction::Down, [Idx(0, 3), Idx(0, 2), Idx(0, 1), Idx(0, 0)]),
    ];
    for (direction, first_row) in expected_first_row {
        let mut it: Indices = r.iter_mut(direction);
        let mut all = Vec::new();
        while let Some(idx) = it.next() {
            all.push(idx);
        }
        assert_eq!(all.len(), 16);
        assert_eq!(&all[0..4], &first_row);
    }
}

#[test]
fn animation_hint_remove_takes_the_last_match() {
    let mut hint = AnimationHint::new();
    hint.set(&Idx(1, 0), Hint::ToIdx(Idx(0, 0)));
    hint.set(&Idx(2, 0), Hint::ToIdx(Idx(1, 0)));
    hint.set(&Idx(1, 0), Hint::ToIdx(Idx(0, 0)));
    hint.remove(&Idx(1, 0), &Hint::ToIdx(Idx(0, 0)));
    assert_eq!(
        hint.hints(),
        vec![(Idx(1, 0), Hint::ToIdx(Idx(0, 0))), (Idx(2, 0), Hint::ToIdx(Idx(1, 0)))]
    );
    // without a match the first entry goes
    hint.remove(&Idx(3, 3), &Hint::ToIdx(Idx(0, 0)));
    assert_eq!(hint.hints(), vec![(Idx(2, 0), Hint::ToIdx(Idx(1, 0)))]);
    assert!(hint.changed());
}

#[test]
fn random_round_has_two_starting_tiles() {
    for seed in 0..50u64 {
        let mut rng = SmallRng::seed_from_u64(seed);
        let r = Round::random(&mut rng);
        assert_eq!(r.score, 0);
        let count = tile_count(&r);
        assert!(count == 1 || count == 2);
        for y in 0..4 {
            for x in 0..4 {
                let v = r.slots[y][x];
                assert!(v == 0 || (v == 2 && x < 3 && y < 3));
            }
        }
        assert!(tile_sum(&r) == 2 || tile_sum(&r) == 4);
    }
}

#[test]
fn board_keeps_its_history() {
    let mut board = Board::new(rng());
    assert_eq!(board.dimensions(), (4, 4));
    assert_eq!(board.score(), 0);
    let first = board.current().clone();
    let mut moved = false;
    for direction in DIRECTIONS {
        let before = board.current().clone();
        match board.shift(direction) {
            Some(hint) => {
                moved = true;
                assert!(hint.changed());
                assert_ne!(*board.current(), before);
            }
            None => assert_eq!(*board.current(), before),
        }
    }
    assert!(moved);
    assert_ne!(*board.current(), first);
}

#[test]
fn legacy_shift_leaves_gaps_after_merges() {
    let z = [0, 0, 0, 0];
    let mut r = tui48::round::Round { score: 0, slots: [[2, 0, 2, 4], z, z, z] };
    let hint = r.shift(&Direction::Left);
    assert!(hint.is_some());
    assert_eq!(r.slots, [[4, 0, 4, 0], z, z, z]);
    assert_eq!(r.score, 2);

    let mut r = tui48::round::Round { score: 0, slots: [[2, 0, 4, 0], z, z, z] };
    assert!(r.shift(&Direction::Left).is_none());
    assert_eq!(r.slots, [[2, 0, 4, 0], z, z, z]);
}

#[test]
fn legacy_shift_cases() {
    for (direction, initial, expected) in slide_cases().into_iter().take(12) {
        let mut r = tui48::round::Round { score: 0, slots: initial };
        let hint = r.shift(&direction);
        assert!(hint.is_some());
        assert_eq!(r.slots, expected, "shifting {:?}", direction);
    }
}

#[test]
fn shift() {
    let identity = [[1, 0, 0, 0], [0, 1, 0, 0], [0, 0, 1, 0], [0, 0, 0, 1]];
    let flipped = [[0, 0, 0, 1], [0, 0, 1, 0], [0, 1, 0, 0], [1, 0, 0, 0]];
    let to_left = [[1, 0, 0, 2], [1, 0, 0, 0], [1, 0, 0, 0], [1, 0, 0, 0]];
    let to_right = [[2, 0, 0, 1], [0, 0, 0, 1], [0, 0, 0, 1], [0, 0, 0, 1]];
    let to_up = [[1, 1, 1, 1], [0, 0, 0, 0], [0, 0, 0, 0], [2, 0, 0, 0]];
    let to_down = [[2, 0, 0, 0], [0, 0, 0, 0], [0, 0, 0, 0], [1, 1, 1, 1]];
    let cases = [
        (Direction::Left, identity, to_left),
        (Direction::Right, identity, to_right),
        (Direction::Up, identity, to_up),
        (Direction::Down, identity, to_down),
        (Direction::Left, flipped, to_left),
        (Direction::Right, flipped, to_right),
        (Direction::Up, flipped, to_up),
        (Direction::Down, flipped, to_down),
        (Direction::Left, [[0, 0, 0, 1], [0, 0, 0, 1], [0, 0, 0, 1], [0, 0, 0, 1]], to_left),
        (Direction::Right, [[1, 0, 0, 0], [1, 0, 0, 0], [1, 0, 0, 0], [1, 0, 0, 0]], to_right),
        (Direction::Down, [[1, 1, 1, 1], [0, 0, 0, 0], [0, 0, 0, 0], [0, 0, 0, 0]], to_down),
        (Direction::Up, [[0, 0, 0, 0], [0, 0, 0, 0], [0, 0, 0, 0], [1, 1, 1, 1]], to_up),
        (
            Direction::Left,
            [[0, 1, 2, 3], [0, 0, 0, 0], [0, 0, 0, 0], [0, 0, 0, 0]],
            [[1, 2, 3, 2], [0, 0, 0, 0], [0, 0, 0, 0], [0, 0, 0, 0]],
        ),
    ];
    for (direction, initial, expected) in cases {
        let mut shifted = round(initial, 0);
        let mut rng = rng();
        let _ = shifted.shift(&mut rng, &direction);
        assert_eq!(shifted, round(expected, 0), "shifting {:?}", direction);
    }
}

#[test]
fn combine() {
    let z = [0, 0, 0, 0];
    let cases = [
        (Direction::Left, round([[1, 1, 1, 1], z, z, z], 0), round([[2, 2, 0, 2], z, z, z], 2)),
        (Direction::Left, round([[2, 2, 0, 2], z, z, z], 2), round([[4, 2, 0, 2], z, z, z], 4)),
        (Direction::Left, round([[2, 0, 2, 2], z, z, z], 2), round([[4, 2, 0, 2], z, z, z], 4)),
        (Direction::Left, round([[4, 2, 0, 2], z, z, z], 4), round([[4, 4, 0, 2], z, z, z], 6)),
        (Direction::Left, round([[2, 4, 8, 16], z, z, z], 4), round([[2, 4, 8, 16], z, z, z], 4)),
        (Direction::Right, round([[1, 1, 1, 1], z, z, z], 0), round([[2, 0, 2, 2], z, z, z], 2)),
        (Direction::Right, round([[2, 2, 0, 2], z, z, z], 2), round([[2, 0, 2, 4], z, z, z], 4)),
        (Direction::Right, round([[4, 2, 0, 2], z, z, z], 4), round([[2, 0, 4, 4], z, z, z], 6)),
        (Direction::Right, round([[2, 4, 8, 16], z, z, z], 4), round([[2, 4, 8, 16], z, z, z], 4)),
    ];
    for (direction, initial, expected) in cases {
        let mut shifted = initial.clone();
        let mut rng = rng();
        let _ = shifted.shift(&mut rng, &direction);
        assert_eq!(shifted, expected, "shifting {:?}", direction);
    }
}
