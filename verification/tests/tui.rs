use std::collections::BTreeSet;

use rand::rngs::SmallRng;
use rand::SeedableRng;

use tui48::engine::board::Board;
use tui48::engine::round::{Hint, Idx as BoardIdx};
use tui48::error::Error;
use tui48::tui::canvas::{Canvas, Cell, DrawBuffer, Modifier};
use tui48::tui::colors::Rgb;
use tui48::tui::error::InnerError;
use tui48::tui::events::{event_from, handle_key_event, Event, KeyCode, KeyEvent, TerminalEvent, UserInput};
use tui48::tui::geometry::{Bounds2D, Direction, Geometry, Idx, Rectangle};
use tui48::tui::textbuffer::{CharBuf, FormatOptions, HAlignment, TextBuffer, VAlignment};
use tui48::tui48::{
    board_rectangle, colors_from_value, draw_score, draw_tile, get_validated_dimensions, Colors, SlidingTile, Slot, Tile,
    Tui48, Tui48Board,
};

fn rectangle(x: usize, y: usize, z: usize, width: usize, height: usize) -> Rectangle {
    Rectangle(Idx(x, y, z), Bounds2D(width, height))
}

/// What the canvas shows, row by row.
fn screen(canvas: &mut Canvas) -> Vec<Vec<char>> {
    let (width, height) = canvas.dimensions();
    let mut rows = vec![vec![' '; width]; height];
    let _ = canvas.get_changed();
    canvas.draw_all().unwrap();
    for stack in canvas.get_changed() {
        let (x, y) = stack.coordinates();
        rows[y][x] = stack.content(canvas).unwrap();
    }
    rows
}

fn text_of(rows: &[Vec<char>], y: usize, x0: usize, x1: usize) -> String {
    rows[y][x0..x1].iter().collect()
}

fn changed_places(canvas: &mut Canvas) -> BTreeSet<(usize, usize)> {
    canvas.get_changed().iter().map(|s| s.coordinates()).collect()
}

fn no_colors() -> Colors {
    Colors { card_colors: Vec::new() }
}

#[test]
fn canvas_size() {
    for (w, h) in [(5, 5), (274, 75)] {
        let canvas = Canvas::new(w, h);
        assert_eq!(canvas.dimensions(), (w, h));
        assert_eq!(canvas.bounds(), Bounds2D(w, h));
    }
}

#[test]
fn get_layer_validate_draw_buffer_size() {
    for (w, h) in [(5, 5), (274, 75)] {
        let mut canvas = Canvas::new(w, h);
        let dbuf = canvas.get_layer(0).ok().unwrap();
        assert_eq!(dbuf.rectangle(&canvas), rectangle(0, 0, 0, w, h));
    }
}

#[test]
fn validate_get_draw_buffer() {
    let cases = [
        ((5, 5), rectangle(0, 0, 0, 5, 5)),
        ((274, 75), rectangle(0, 0, 0, 274, 75)),
        ((274, 75), rectangle(10, 10, 0, 10, 10)),
    ];
    for ((w, h), rect) in cases {
        let mut canvas = Canvas::new(w, h);
        let dbuf = canvas.get_draw_buffer(rect).ok().unwrap();
        assert_eq!(dbuf.rectangle(&canvas), rect);
        assert!(canvas.is_live(dbuf.id));
    }
}

#[test]
fn draw_buffer_outside_the_canvas_is_refused() {
    let mut canvas = Canvas::new(10, 10);
    let r = canvas.get_draw_buffer(rectangle(5, 5, 0, 6, 2));
    assert!(matches!(r, Err(e) if e.inner == InnerError::OutOfBoundsX(11)));
    let r = canvas.get_draw_buffer(rectangle(0, 5, 0, 2, 6));
    assert!(matches!(r, Err(e) if e.inner == InnerError::OutOfBoundsY(11)));
}

#[test]
fn overlapping_draw_buffers_are_refused() {
    let mut canvas = Canvas::new(10, 10);
    let _first = canvas.get_draw_buffer(rectangle(0, 0, 1, 4, 4)).ok().unwrap();
    let second = canvas.get_draw_buffer(rectangle(2, 2, 1, 4, 4));
    assert!(matches!(second, Err(e) if e.inner == InnerError::CellAlreadyOwned));
    let other_layer = canvas.get_draw_buffer(rectangle(2, 2, 2, 4, 4));
    assert!(other_layer.is_ok());
}

#[test]
fn validate_tuxel_reclaim() {
    let cases = [
        ((5, 5), rectangle(0, 0, 0, 5, 5)),
        ((274, 75), rectangle(0, 0, 0, 274, 75)),
        ((274, 75), rectangle(10, 10, 0, 10, 10)),
    ];
    for ((w, h), rect) in cases {
        let mut canvas = Canvas::new(w, h);
        let dbuf = canvas.get_draw_buffer(rect).ok().unwrap();
        let id = dbuf.id;
        let places: Vec<Idx> = rect.into_iter();
        for idx in places.iter() {
            assert!(matches!(canvas.grid[idx.1][idx.0].cells[idx.2], Cell::DBTuxel(_)));
        }
        dbuf.release(&mut canvas);
        assert!(!canvas.is_live(id));
        for idx in places.iter() {
            assert!(matches!(canvas.grid[idx.1][idx.0].cells[idx.2], Cell::Empty));
        }
        canvas.reclaim();
        for idx in places.iter() {
            assert!(matches!(canvas.grid[idx.1][idx.0].cells[idx.2], Cell::Empty));
        }
        // the place can be taken again
        assert!(canvas.get_draw_buffer(rect).is_ok());
    }
}

#[test]
fn validate_drawbuffer_translation_cleanup() {
    let mut canvas = Canvas::new(50, 50);
    assert_eq!(changed_places(&mut canvas).len(), 0);
    let initial = rectangle(0, 0, 0, 2, 2);
    let dbuf = canvas.get_draw_buffer(initial).ok().unwrap();
    assert_eq!(changed_places(&mut canvas).len(), 0);
    dbuf.fill(&mut canvas, '.').ok().unwrap();
    assert_eq!(changed_places(&mut canvas).len(), 4);
    assert_eq!(changed_places(&mut canvas).len(), 0);

    let mut moved = initial;
    moved.translate(1, &Direction::Down).ok().unwrap();
    let mut expected: BTreeSet<(usize, usize)> = BTreeSet::new();
    for idx in initial.into_iter().into_iter().chain(moved.into_iter().into_iter()) {
        expected.insert((idx.0, idx.1));
    }
    dbuf.translate(&mut canvas, Direction::Down).ok().unwrap();
    let changed = changed_places(&mut canvas);
    assert_eq!(changed.len(), 6);
    assert_eq!(changed, expected);
    assert_eq!(dbuf.rectangle(&canvas), moved);
}

#[test]
fn translation_is_undone_by_the_opposite_move() {
    let r = rectangle(3, 4, 1, 5, 6);
    for (d, back) in [
        (Direction::Right, Direction::Left),
        (Direction::Left, Direction::Right),
        (Direction::Down, Direction::Up),
        (Direction::Up, Direction::Down),
    ] {
        let mut moved = r;
        moved.translate(2, &d).ok().unwrap();
        assert_ne!(moved, r);
        assert_eq!(moved.1, r.1);
        moved.translate(2, &back).ok().unwrap();
        assert_eq!(moved, r);
    }
    // a move left stops at zero, so moving back does not restore it
    let mut edge = rectangle(0, 0, 0, 1, 1);
    edge.translate(1, &Direction::Left).ok().unwrap();
    edge.translate(1, &Direction::Right).ok().unwrap();
    assert_eq!(edge, rectangle(1, 0, 0, 1, 1));
}

#[test]
fn rectangle_cells_are_listed_column_by_column() {
    let cells = rectangle(1, 2, 3, 2, 3).into_iter();
    assert_eq!(
        cells,
        vec![Idx(1, 2, 3), Idx(1, 3, 3), Idx(1, 4, 3), Idx(2, 2, 3), Idx(2, 3, 3), Idx(2, 4, 3)]
    );
}

#[test]
fn containment_reports_the_coordinate_outside() {
    let outer = rectangle(0, 0, 0, 10, 5);
    assert!(outer.contains_or_err(Geometry::Rectangle(&rectangle(2, 1, 0, 8, 4))).is_ok());
    let r = outer.contains_or_err(Geometry::Rectangle(&rectangle(3, 0, 0, 8, 1)));
    assert!(matches!(r, Err(e) if e.inner == InnerError::OutOfBoundsX(11)));
    let r = outer.contains_or_err(Geometry::Rectangle(&rectangle(0, 3, 0, 1, 3)));
    assert!(matches!(r, Err(e) if e.inner == InnerError::OutOfBoundsY(6)));
    assert!(outer.contains_or_err(Geometry::Idx(&Idx(10, 5, 0))).is_ok());
    let r = outer.contains_or_err(Geometry::Idx(&Idx(11, 0, 0)));
    assert!(matches!(r, Err(e) if e.inner == InnerError::OutOfBoundsX(11)));
}

#[test]
fn write_left_center_and_right_place_the_text() {
    let mut canvas = Canvas::new(12, 3);
    let left = canvas.get_draw_buffer(rectangle(0, 0, 0, 12, 3)).ok().unwrap();
    left.fill(&mut canvas, ' ').ok().unwrap();
    left.write_left(&mut canvas, "ab").ok().unwrap();
    let rows = screen(&mut canvas);
    assert_eq!(text_of(&rows, 1, 0, 12), "ab          ");

    left.fill(&mut canvas, ' ').ok().unwrap();
    left.write_center(&mut canvas, "ab").ok().unwrap();
    let rows = screen(&mut canvas);
    assert_eq!(text_of(&rows, 1, 0, 12), "     ab     ");

    left.fill(&mut canvas, ' ').ok().unwrap();
    left.write_right(&mut canvas, "ab").ok().unwrap();
    let rows = screen(&mut canvas);
    assert_eq!(text_of(&rows, 1, 0, 12), "          ab");
}

#[test]
fn draw_border_frames_the_buffer() {
    let mut canvas = Canvas::new(4, 3);
    let dbuf = canvas.get_draw_buffer(rectangle(0, 0, 0, 4, 3)).ok().unwrap();
    dbuf.fill(&mut canvas, ' ').ok().unwrap();
    dbuf.draw_border(&mut canvas).ok().unwrap();
    let rows = screen(&mut canvas);
    assert_eq!(text_of(&rows, 0, 0, 4), "\u{2554}\u{2550}\u{2550}\u{2557}");
    assert_eq!(text_of(&rows, 1, 0, 4), "\u{2551}  \u{2551}");
    assert_eq!(text_of(&rows, 2, 0, 4), "\u{255a}\u{2550}\u{2550}\u{255d}");
}

#[test]
fn higher_layers_cover_lower_ones() {
    let mut canvas = Canvas::new(3, 1);
    let low = canvas.get_draw_buffer(rectangle(0, 0, 1, 3, 1)).ok().unwrap();
    let high = canvas.get_draw_buffer(rectangle(1, 0, 2, 1, 1)).ok().unwrap();
    low.fill(&mut canvas, 'a').ok().unwrap();
    high.fill(&mut canvas, 'b').ok().unwrap();
    let rows = screen(&mut canvas);
    assert_eq!(text_of(&rows, 0, 0, 3), "aba");
    high.release(&mut canvas);
    let rows = screen(&mut canvas);
    assert_eq!(text_of(&rows, 0, 0, 3), "aaa");
}

fn add_borders(rows: Vec<&str>) -> Vec<String> {
    let width = rows[0].chars().count();
    let mut out = Vec::new();
    out.push(format!("\u{2554}{}\u{2557}", "\u{2550}".repeat(width)));
    for row in rows {
        out.push(format!("\u{2551}{}\u{2551}", row));
    }
    out.push(format!("\u{255a}{}\u{255d}", "\u{2550}".repeat(width)));
    out
}

fn formatted(format: Option<FormatOptions>, text: &str, border: bool) -> Vec<String> {
    let bounds = if border { Bounds2D(12, 7) } else { Bounds2D(10, 5) };
    let rect = Rectangle(Idx(0, 0, 0), bounds);
    let mut canvas = Canvas::new(20, 20);
    let mut tbuf = TextBuffer::new(&mut canvas, rect).ok().unwrap();
    if let Some(f) = format {
        tbuf.format(f);
    }
    if border {
        tbuf.buffer.draw_border(&mut canvas).ok().unwrap();
    }
    tbuf.buffer.fill(&mut canvas, ' ').ok().unwrap();
    tbuf.write(text, None, None);
    tbuf.flush(&mut canvas).ok().unwrap();
    let rows = screen(&mut canvas);
    (0..bounds.1).map(|y| text_of(&rows, y, 0, bounds.0)).collect()
}

fn fo(halign: HAlignment, valign: VAlignment) -> Option<FormatOptions> {
    Some(FormatOptions { halign, valign })
}

fn check_formatting(format: Option<FormatOptions>, text: &str, expected: Vec<&str>) {
    assert_eq!(formatted(format, text, false), expected.iter().map(|s| s.to_string()).collect::<Vec<_>>());
    assert_eq!(formatted(format, text, true), add_borders(expected));
}

#[test]
fn validate_formatting_single_word() {
    check_formatting(None, "meow", vec!["          ", "          ", "   meow   ", "          ", "          "]);
    check_formatting(
        fo(HAlignment::Center, VAlignment::Top),
        "meow",
        vec!["   meow   ", "          ", "          ", "          ", "          "],
    );
    check_formatting(
        fo(HAlignment::Left, VAlignment::Bottom),
        "meow",
        vec!["          ", "          ", "          ", "          ", "meow      "],
    );
    check_formatting(
        fo(HAlignment::Right, VAlignment::Middle),
        "meow",
        vec!["          ", "          ", "      meow", "          ", "          "],
    );
}

#[test]
fn validate_formatting_wrapping() {
    check_formatting(None, "meowmeowmeow", vec!["          ", "          ", "meowmeowme", "    ow    ", "          "]);
    check_formatting(
        fo(HAlignment::Left, VAlignment::Top),
        "meowmeowmeow",
        vec!["meowmeowme", "ow        ", "          ", "          ", "          "],
    );
    check_formatting(
        fo(HAlignment::Right, VAlignment::Bottom),
        "meowmeowmeow",
        vec!["          ", "          ", "          ", "meowmeowme", "        ow"],
    );
}

#[test]
fn validate_formatting_multiword() {
    check_formatting(None, "meow meow meow", vec!["          ", "          ", " meow meow", "   meow   ", "          "]);
    check_formatting(
        fo(HAlignment::Left, VAlignment::Middle),
        "meow meow meow",
        vec!["          ", "          ", "meow meow ", "meow      ", "          "],
    );
    check_formatting(
        fo(HAlignment::Right, VAlignment::Top),
        "meow meow meow",
        vec![" meow meow", "      meow", "          ", "          ", "          "],
    );
}

#[test]
fn text_buffer_colors_the_written_tuxels() {
    let mut canvas = Canvas::new(6, 1);
    let mut tbuf = TextBuffer::new(&mut canvas, rectangle(0, 0, 0, 6, 1)).ok().unwrap();
    tbuf.format(FormatOptions { halign: HAlignment::Left, valign: VAlignment::Top });
    tbuf.write("hi", Some(Rgb::new(1, 2, 3)), Some(Rgb::new(4, 5, 6)));
    tbuf.flush(&mut canvas).ok().unwrap();
    let _ = canvas.get_changed();
    canvas.draw_all().unwrap();
    for stack in canvas.get_changed() {
        let (x, _) = stack.coordinates();
        let (fg, bg, _) = stack.colors(&canvas);
        if x < 2 {
            assert_eq!(fg, Some(Rgb::new(1, 2, 3)));
            assert_eq!(bg, Some(Rgb::new(4, 5, 6)));
        }
    }
}

#[test]
fn text_buffer_too_many_lines_for_the_area() {
    // five lines on three rows, from the top: the row below the area is refused
    let mut canvas = Canvas::new(4, 3);
    let mut tbuf = TextBuffer::new(&mut canvas, rectangle(0, 0, 0, 4, 3)).ok().unwrap();
    tbuf.format(FormatOptions { halign: HAlignment::Left, valign: VAlignment::Top });
    for _ in 0..5 {
        tbuf.write("ab", None, None);
    }
    let r = tbuf.flush(&mut canvas);
    assert!(matches!(r, Err(e) if e.inner == InnerError::OutOfBoundsY(3)));
}

#[test]
fn text_buffer_on_a_border_without_room_writes_nothing() {
    let mut canvas = Canvas::new(4, 4);
    let tbuf = TextBuffer::new(&mut canvas, rectangle(0, 0, 0, 2, 2)).ok().unwrap();
    tbuf.buffer.draw_border(&mut canvas).ok().unwrap();
    let mut tbuf = tbuf;
    tbuf.write("text", None, None);
    assert!(tbuf.flush(&mut canvas).is_ok());
}

#[test]
fn keys_map_to_inputs() {
    let key = |code| handle_key_event(KeyEvent { code });
    assert_eq!(key(KeyCode::Left), Some(UserInput::Direction(Direction::Left)));
    assert_eq!(key(KeyCode::Char('h')), Some(UserInput::Direction(Direction::Left)));
    assert_eq!(key(KeyCode::Right), Some(UserInput::Direction(Direction::Right)));
    assert_eq!(key(KeyCode::Char('l')), Some(UserInput::Direction(Direction::Right)));
    assert_eq!(key(KeyCode::Up), Some(UserInput::Direction(Direction::Up)));
    assert_eq!(key(KeyCode::Char('k')), Some(UserInput::Direction(Direction::Up)));
    assert_eq!(key(KeyCode::Down), Some(UserInput::Direction(Direction::Down)));
    assert_eq!(key(KeyCode::Char('j')), Some(UserInput::Direction(Direction::Down)));
    assert_eq!(key(KeyCode::Char('q')), Some(UserInput::Quit));
    assert_eq!(key(KeyCode::Char('x')), None);
    assert_eq!(key(KeyCode::Other), None);
}

#[test]
fn terminal_events_map_to_game_events() {
    assert_eq!(event_from(TerminalEvent::Resize), Some(Event::Resize));
    assert_eq!(
        event_from(TerminalEvent::Key(KeyEvent { code: KeyCode::Char('q') })),
        Some(Event::UserInput(UserInput::Quit))
    );
    assert_eq!(event_from(TerminalEvent::Key(KeyEvent { code: KeyCode::Char('z') })), None);
    assert_eq!(event_from(TerminalEvent::Other), None);
}

#[test]
fn colors_fall_back_to_white_on_dark_red() {
    let colors = Colors {
        card_colors: vec![(2, Modifier::SetBackgroundColor(1, 1, 1), Modifier::SetForegroundColor(2, 2, 2))],
    };
    assert_eq!(
        colors_from_value(2, &colors),
        (Modifier::SetBackgroundColor(1, 1, 1), Modifier::SetForegroundColor(2, 2, 2))
    );
    assert_eq!(
        colors_from_value(4, &colors),
        (Modifier::SetBackgroundColor(255, 255, 255), Modifier::SetForegroundColor(90, 0, 0))
    );
}

#[test]
fn error_if_terminal_is_too_small() {
    for (w, h) in [(0, 0), (10, 10), (100, 24), (40, 100)] {
        let mut canvas = Canvas::new(w, h);
        let board = Board::new(SmallRng::seed_from_u64(10));
        let r = Tui48Board::new(&board, &mut canvas, &no_colors());
        assert!(matches!(r, Err(Error::TerminalTooSmall(a, b)) if a == w && b == h));
    }
    assert!(matches!(get_validated_dimensions(40, 30), Err(Error::TerminalTooSmall(40, 30))));
    assert!(matches!(get_validated_dimensions(41, 29), Err(Error::TerminalTooSmall(41, 29))));
    assert_eq!(
        get_validated_dimensions(41, 30).ok().unwrap(),
        (rectangle(5, 5, 2, 36, 25), rectangle(18, 1, 2, 10, 3))
    );
    assert_eq!(board_rectangle(), rectangle(5, 5, 2, 36, 25));
}

#[test]
fn tiles_and_score_show_their_values() {
    let mut canvas = Canvas::new(20, 10);
    let tile = canvas.get_draw_buffer(rectangle(0, 0, 4, 6, 5)).ok().unwrap();
    draw_tile(&tile, &mut canvas, 128, &no_colors()).ok().unwrap();
    let score = canvas.get_draw_buffer(rectangle(8, 0, 2, 10, 3)).ok().unwrap();
    draw_score(&score, &mut canvas, 2048).ok().unwrap();
    let rows = screen(&mut canvas);
    assert_eq!(text_of(&rows, 2, 0, 6), "\u{2551} 128\u{2551}");
    assert_eq!(text_of(&rows, 1, 8, 18), "\u{2551}    2048\u{2551}");
}

fn occupied(canvas: &Canvas) -> Vec<usize> {
    (0..8).filter(|z| canvas.layer_occupied(*z)).collect()
}

fn shifting_direction(board: &Board) -> Direction {
    for d in [Direction::Down, Direction::Up, Direction::Left, Direction::Right] {
        let mut copy = board.current().clone();
        let mut rng = SmallRng::seed_from_u64(1);
        if copy.shift(&mut rng, &d).is_some() {
            return d;
        }
    }
    panic!("a starting board can always shift");
}

#[test]
fn board_animation_leaves_tiles_at_rest() {
    let mut canvas = Canvas::new(100, 100);
    let mut game = Board::new(SmallRng::seed_from_u64(10));
    let colors = no_colors();
    let mut tb = Tui48Board::new(&game, &mut canvas, &colors).ok().unwrap();
    assert_eq!(occupied(&canvas), vec![2, 4]);

    let d = shifting_direction(&game);
    let hint = game.shift(d).expect("the direction shifts");
    let hints = hint.hints().len();
    tb.setup_animation(&mut canvas, hint, &colors).ok().unwrap();
    assert_eq!(tb.moving_slots.len(), hints);
    assert_eq!(tb.done_slots.len(), 0);
    assert!(canvas.layer_occupied(3));
    let mut frames = 0;
    while tb.animate(&mut canvas).ok().unwrap() {
        frames += 1;
        assert!(frames < 1000);
    }
    tb.teardown_animation(&mut canvas, &colors).ok().unwrap();
    assert_eq!(tb.moving_slots.len(), 0);
    assert_eq!(tb.done_slots.len(), 0);
    assert_eq!(tb.disappearing_slots.len(), 0);
    canvas.reclaim();
    assert_eq!(occupied(&canvas), vec![2, 4]);

    let latest = game.current();
    for y in 0..4 {
        for x in 0..4 {
            let value = latest.slots[y][x];
            match &tb.slots[y][x] {
                Slot::Empty => assert_eq!(value, 0),
                Slot::Static(t) => assert_eq!(t.value, value),
                Slot::Sliding(_) => panic!("no tile moves after the animation"),
            }
        }
    }
}

#[test]
fn game_shows_a_message_until_the_terminal_is_large_enough() {
    let board = Board::new(SmallRng::seed_from_u64(3));
    let colors = no_colors();
    let mut game = Tui48::new(board, 70, 20);
    game.resize(70, 20, &colors).ok().unwrap();
    assert!(!game.has_board());
    game.show_message().ok().unwrap();
    let rows = screen(&mut game.canvas);
    assert_eq!(text_of(&rows, 10, 0, 10), "hey there!");
    game.hide_message();
    assert!(game.message.is_none());

    game.resize(100, 40, &colors).ok().unwrap();
    assert!(game.has_board());
    assert_eq!(game.dimensions(), (100, 40));
    game.show_message().ok().unwrap();
    assert!(game.message.is_none());
}

#[test]
fn game_shift_runs_the_animation_through() {
    let board = Board::new(SmallRng::seed_from_u64(5));
    let colors = no_colors();
    let mut game = Tui48::new(board, 100, 40);
    game.resize(100, 40, &colors).ok().unwrap();
    let d = shifting_direction(&game.board);
    assert!(game.can_shift(&d));
    let hint = game.shift_board(d).expect("the direction shifts");
    game.begin_animation(hint, &colors).ok().unwrap();
    while game.animate_frame().ok().unwrap() {}
    game.end_animation(&colors).ok().unwrap();
    let stacks = game.changed_stacks();
    assert!(!stacks.is_empty());
    let rows = screen(&mut game.canvas);
    let score = game.board.score();
    let shown = text_of(&rows, 2, 19, 27);
    assert_eq!(shown.trim(), score.to_string());
}

#[test]
fn released_draw_buffers_are_not_live() {
    let mut canvas = Canvas::new(4, 4);
    let d = canvas.get_draw_buffer(rectangle(0, 0, 0, 2, 2)).ok().unwrap();
    let id = d.id;
    d.release(&mut canvas);
    assert!(!canvas.is_live(id));
    let gone = DrawBuffer { id };
    assert_eq!(gone.rectangle(&canvas), rectangle(0, 0, 0, 0, 0));
    assert!(gone.fill(&mut canvas, 'x').is_ok());
}

#[test]
fn slots_off_the_board_are_named_in_the_error() {
    let mut canvas = Canvas::new(100, 100);
    let game = Board::new(SmallRng::seed_from_u64(10));
    let mut tb = Tui48Board::new(&game, &mut canvas, &no_colors()).ok().unwrap();
    let r = tb.get_slot(&tui48::engine::round::Idx(1, 5));
    assert!(matches!(r, Err(Error::UnableToRetrieveSlot { context }) if context == "getting row 5"));
    let r = tb.get_slot(&tui48::engine::round::Idx(7, 2));
    assert!(matches!(r, Err(Error::UnableToRetrieveSlot { context }) if context == "getting slot at 7,2"));
    let r = tb.put_slot(&tui48::engine::round::Idx(12, 0), Slot::Empty, &mut canvas);
    assert!(matches!(r, Err(Error::UnableToRetrieveSlot { context }) if context == "getting slot at 12,0"));
}

fn generate_round_from(idxs: &[(tui48::engine::round::Idx, u16)]) -> tui48::engine::round::Round {
    let mut round = tui48::engine::round::Round::default();
    for x in 0..3 {
        for y in 0..3 {
            let idx = tui48::engine::round::Idx(x, y);
            if let Some((_, v)) = idxs.iter().find(|(i, _)| *i == idx) {
                round.set_value(&idx, *v);
            }
        }
    }
    round
}

fn verify_occupied_layers(c: &Canvas, occupied: Vec<usize>, not_occupied: Vec<usize>) {
    for zdx in occupied.iter() {
        assert!(c.layer_occupied(*zdx), "layer {} should be occupied", zdx)
    }
    for zdx in not_occupied.iter() {
        assert!(!c.layer_occupied(*zdx), "layer {} should not be occupied", zdx)
    }
}

#[test]
fn test_slide() {
    let colors = no_colors();
    let idxs = [(BoardIdx(0, 0), 2), (BoardIdx(0, 1), 2)];
    let mut canvas = Canvas::new(100, 100);
    let mut game_board = Board::new(SmallRng::seed_from_u64(10));
    game_board.set_initial_round(generate_round_from(&idxs));
    let mut tui_board = Tui48Board::new(&game_board, &mut canvas, &colors).ok().unwrap();

    let hint = game_board.shift(Direction::Down).expect("down should definitely result in hints");
    assert_eq!(hint.hints().len(), 3);

    let hints = hint.hints();
    let (idx1, hint1) = hints.get(0).expect("expecting three hints");
    let (idx2, hint2) = hints.get(1).expect("expecting three hints");
    let (idx3, hint3) = hints.get(2).expect("expecting three hints");

    assert_eq!(*idx1, BoardIdx(0, 1));
    assert!(matches!(hint1, Hint::ToIdx(BoardIdx(0, 3))));
    assert_eq!(*idx2, BoardIdx(0, 0));
    assert!(matches!(hint2, Hint::NewValueToIdx(4, BoardIdx(0, 3))));
    assert_eq!(*idx3, BoardIdx(2, 0));
    assert!(matches!(hint3, Hint::NewTile(2, Direction::Down)));

    verify_occupied_layers(&canvas, vec![2, 4], vec![0, 1, 3, 5, 6, 7]);
    tui_board.setup_animation(&mut canvas, hint, &colors).ok().unwrap();
    verify_occupied_layers(&canvas, vec![2, 3, 5], vec![0, 1, 4, 6, 7]);

    assert_eq!(tui_board.moving_slots.len(), 3);
    assert_eq!(tui_board.done_slots.len(), 0);
    assert_eq!(tui_board.disappearing_slots.len(), 0);

    while tui_board.animate(&mut canvas).ok().unwrap() {
        verify_occupied_layers(&canvas, vec![2, 3, 5], vec![0, 1, 4, 6, 7]);
    }
    tui_board.teardown_animation(&mut canvas, &colors).ok().unwrap();
    assert_eq!(tui_board.moving_slots.len(), 0);
    assert_eq!(tui_board.done_slots.len(), 0);
    assert_eq!(tui_board.disappearing_slots.len(), 0);
    verify_occupied_layers(&canvas, vec![2, 4], vec![0, 1, 3, 5, 6, 7]);
}

/// Sets up a board of two tiles of 2 on a canvas of the board's own extents, slides it and
/// animates the slide to its end.
fn slide_on_board_sized_canvas(slide_dir: Direction) -> Result<(), Error> {
    let colors = no_colors();
    let idxs = [(BoardIdx(1, 1), 2), (BoardIdx(2, 2), 2)];
    let rect = board_rectangle();
    let (x_extent, y_extent) = rect.extents();
    let mut canvas = Canvas::new(x_extent, y_extent);
    let mut game_board = Board::new(SmallRng::seed_from_u64(10));
    game_board.set_initial_round(generate_round_from(&idxs));
    let mut tui_board = Tui48Board::new(&game_board, &mut canvas, &colors)?;
    let hint = game_board.shift(slide_dir).expect("the slide should result in hints");
    draw_score(&tui_board.score, &mut canvas, game_board.score())?;
    tui_board.setup_animation(&mut canvas, hint, &colors)?;
    while tui_board.animate(&mut canvas)? {}
    tui_board.teardown_animation(&mut canvas, &colors)?;
    Ok(())
}

#[test]
fn verify_board_bounds_within_canvas() {
    for slide_dir in [Direction::Down, Direction::Up, Direction::Right, Direction::Left] {
        assert!(slide_on_board_sized_canvas(slide_dir).is_ok(), "sliding {:?}", slide_dir);
    }
}

#[test]
fn new_tiles_start_against_the_edge_of_a_small_canvas() {
    let colors = no_colors();
    let mut canvas = Canvas::new(41, 30);
    let mut tb = Tui48Board::new(&Board::new(SmallRng::seed_from_u64(10)), &mut canvas, &colors).ok().unwrap();
    let st = tb.new_sliding_tile(&mut canvas, &BoardIdx(3, 1), 2, &Direction::Left, &colors).ok().unwrap();
    assert_eq!(st.inner.buf.rectangle(&canvas), rectangle(35, 12, 3, 6, 5));
    let st = tb.new_sliding_tile(&mut canvas, &BoardIdx(1, 3), 2, &Direction::Up, &colors).ok().unwrap();
    assert_eq!(st.inner.buf.rectangle(&canvas), rectangle(16, 25, 3, 6, 5));
    let mut wide = Canvas::new(100, 100);
    let mut tb = Tui48Board::new(&Board::new(SmallRng::seed_from_u64(10)), &mut wide, &colors).ok().unwrap();
    let st = tb.new_sliding_tile(&mut wide, &BoardIdx(3, 1), 2, &Direction::Left, &colors).ok().unwrap();
    assert_eq!(st.inner.buf.rectangle(&wide), rectangle(40, 12, 3, 6, 5));
    let st = tb.new_sliding_tile(&mut wide, &BoardIdx(1, 3), 2, &Direction::Up, &colors).ok().unwrap();
    assert_eq!(st.inner.buf.rectangle(&wide), rectangle(16, 28, 3, 6, 5));
}

#[test]
fn the_board_fits_a_canvas_of_its_own_extents() {
    let board = Board::new(SmallRng::seed_from_u64(10));
    let mut canvas = Canvas::new(41, 30);
    assert!(Tui48Board::new(&board, &mut canvas, &no_colors()).is_ok());

    let mut game = Tui48::new(Board::new(SmallRng::seed_from_u64(10)), 41, 29);
    assert!(game.resize(41, 29, &no_colors()).is_ok());
    assert!(!game.has_board());
    assert!(game.resize(41, 30, &no_colors()).is_ok());
    assert!(game.has_board());
}

#[test]
fn switching_layers_moves_the_buffer() {
    let mut canvas = Canvas::new(6, 4);
    let dbuf = canvas.get_draw_buffer(rectangle(1, 1, 2, 3, 2)).ok().unwrap();
    dbuf.fill(&mut canvas, 'x').ok().unwrap();
    assert!(canvas.layer_occupied(2));
    dbuf.switch_layer(&mut canvas, 5).ok().unwrap();
    assert!(!canvas.layer_occupied(2));
    assert!(canvas.layer_occupied(5));
    assert_eq!(dbuf.rectangle(&canvas), rectangle(1, 1, 5, 3, 2));
    let rows = screen(&mut canvas);
    assert_eq!(text_of(&rows, 1, 0, 6), " xxx  ");
    assert_eq!(text_of(&rows, 2, 0, 6), " xxx  ");
}

#[test]
fn switching_onto_a_taken_layer_swaps_the_cells() {
    let mut canvas = Canvas::new(6, 4);
    let dbuf = canvas.get_draw_buffer(rectangle(0, 0, 1, 3, 2)).ok().unwrap();
    let _other = canvas.get_draw_buffer(rectangle(2, 1, 3, 2, 2)).ok().unwrap();
    dbuf.switch_layer(&mut canvas, 3).ok().unwrap();
    assert_eq!(dbuf.rectangle(&canvas), rectangle(0, 0, 3, 3, 2));
    assert!(canvas.layer_occupied(3));
    assert!(canvas.layer_occupied(1));
}

#[test]
fn translation_moves_the_text_with_the_buffer() {
    let mut canvas = Canvas::new(5, 3);
    let dbuf = canvas.get_draw_buffer(rectangle(0, 0, 1, 2, 1)).ok().unwrap();
    dbuf.fill(&mut canvas, 'o').ok().unwrap();
    dbuf.translate(&mut canvas, Direction::Right).ok().unwrap();
    dbuf.translate(&mut canvas, Direction::Down).ok().unwrap();
    assert_eq!(dbuf.rectangle(&canvas), rectangle(1, 1, 1, 2, 1));
    let rows = screen(&mut canvas);
    assert_eq!(text_of(&rows, 0, 0, 5), "     ");
    assert_eq!(text_of(&rows, 1, 0, 5), " oo  ");
}

#[test]
fn translation_off_the_canvas_fails() {
    let mut canvas = Canvas::new(3, 3);
    let dbuf = canvas.get_draw_buffer(rectangle(0, 0, 1, 2, 2)).ok().unwrap();
    dbuf.translate(&mut canvas, Direction::Right).ok().unwrap();
    assert_eq!(dbuf.rectangle(&canvas), rectangle(1, 0, 1, 2, 2));
    assert!(dbuf.translate(&mut canvas, Direction::Right).is_err());
}

#[test]
fn a_clone_covers_the_same_places_on_another_layer() {
    let mut canvas = Canvas::new(4, 4);
    let dbuf = canvas.get_draw_buffer(rectangle(1, 1, 0, 2, 2)).ok().unwrap();
    let copy = dbuf.clone_to(&mut canvas, 6).ok().unwrap();
    assert_eq!(copy.rectangle(&canvas), rectangle(1, 1, 6, 2, 2));
    assert!(canvas.layer_occupied(6));
    assert!(dbuf.clone_to(&mut canvas, 6).is_err());
}

#[test]
fn swapping_rectangles_of_other_sizes_fails() {
    let mut canvas = Canvas::new(4, 4);
    let r = canvas.swap_rectangles(&rectangle(0, 0, 0, 2, 2), &rectangle(0, 0, 1, 2, 1), None);
    assert!(matches!(r, Err(e) if e.inner == InnerError::RectangleDimensionsMustMatch));
    assert!(canvas.swap_rectangles(&rectangle(0, 0, 0, 2, 2), &rectangle(0, 0, 0, 2, 2), None).is_ok());
}

#[test]
fn swapping_twice_gives_back_the_cells() {
    let mut canvas = Canvas::new(5, 5);
    let dbuf = canvas.get_draw_buffer(rectangle(0, 0, 0, 2, 1)).ok().unwrap();
    dbuf.fill(&mut canvas, 'x').ok().unwrap();
    let before: Vec<Cell> = (0..5).flat_map(|y| (0..5).map(move |x| (x, y))).map(|(x, y)| canvas.grid[y][x].cells[0]).collect();
    let _ = canvas.get_changed();
    let a = Idx(0, 0, 0);
    let b = Idx(3, 3, 0);
    assert!(canvas.swap_tuxels(a, b, None).is_ok());
    assert!(matches!(canvas.grid[0][0].cells[0], Cell::Empty));
    assert!(matches!(canvas.grid[3][3].cells[0], Cell::DBTuxel(d) if d.canvas_idx == b));
    let changed = changed_places(&mut canvas);
    assert!(changed.contains(&(0, 0)) && changed.contains(&(3, 3)));
    assert!(canvas.swap_tuxels(a, b, None).is_ok());
    let after: Vec<Cell> = (0..5).flat_map(|y| (0..5).map(move |x| (x, y))).map(|(x, y)| canvas.grid[y][x].cells[0]).collect();
    assert_eq!(before, after);
    // a place off the grid fails and changes nothing
    assert!(canvas.swap_tuxels(Idx(5, 0, 0), a, None).is_err());
    assert!(canvas.swap_tuxels(a, Idx(0, 7, 0), None).is_err());
    let again: Vec<Cell> = (0..5).flat_map(|y| (0..5).map(move |x| (x, y))).map(|(x, y)| canvas.grid[y][x].cells[0]).collect();
    assert_eq!(before, again);
}

#[test]
fn a_sliding_tile_takes_one_frame_per_step() {
    let mut canvas = Canvas::new(40, 40);
    let buf = canvas.get_draw_buffer(rectangle(2, 2, 3, 6, 5)).ok().unwrap();
    let tile = Tile::new(2, BoardIdx(0, 0), buf);
    let mut st = SlidingTile::new(tile, rectangle(5, 4, 3, 6, 5), Some(4));
    // three columns and two rows away: five frames of moving
    for _ in 0..5 {
        assert_eq!(st.animate(&mut canvas).ok().unwrap(), true);
    }
    assert_eq!(st.animate(&mut canvas).ok().unwrap(), false);
    assert!(!st.is_animating);
    assert_eq!(st.inner.value, 4);
    assert_eq!(st.inner.buf.rectangle(&canvas), rectangle(5, 4, 3, 6, 5));
    assert_eq!(st.animate(&mut canvas).ok().unwrap(), false);
}

#[test]
fn wrapping_at_no_width_still_gives_lines() {
    let piece = CharBuf { text: "ab cd".to_string(), fgcolor: None, bgcolor: None };
    let lines = piece.wrap(0);
    assert!(!lines.is_empty());
    let joined: String = lines.iter().map(|l| l.text.clone()).collect::<Vec<_>>().join("");
    assert_eq!(joined.replace(' ', ""), "abcd");
}

#[test]
fn a_border_keeps_the_layout_of_too_many_lines() {
    // five lines on three rows, from the top: without a border the row below the area is
    // refused; inside a border the lines stop at the last inner row; both show the same rows
    let mut plain_canvas = Canvas::new(4, 3);
    let mut plain = TextBuffer::new(&mut plain_canvas, rectangle(0, 0, 0, 4, 3)).ok().unwrap();
    let mut framed_canvas = Canvas::new(6, 5);
    let mut framed = TextBuffer::new(&mut framed_canvas, rectangle(0, 0, 0, 6, 5)).ok().unwrap();
    framed.buffer.draw_border(&mut framed_canvas).ok().unwrap();
    plain.buffer.fill(&mut plain_canvas, ' ').ok().unwrap();
    framed.buffer.fill(&mut framed_canvas, ' ').ok().unwrap();
    for tb in [&mut plain, &mut framed] {
        tb.format(FormatOptions { halign: HAlignment::Left, valign: VAlignment::Top });
        for word in ["ab", "cd", "ef", "gh", "ij"] {
            tb.write(word, None, None);
        }
    }
    let r = plain.flush(&mut plain_canvas);
    assert!(matches!(r, Err(e) if e.inner == InnerError::OutOfBoundsY(3)));
    assert!(framed.flush(&mut framed_canvas).is_ok());
    let plain_rows = screen(&mut plain_canvas);
    let framed_rows = screen(&mut framed_canvas);
    for y in 0..3 {
        assert_eq!(format!("\u{2551}{}\u{2551}", text_of(&plain_rows, y, 0, 4)), text_of(&framed_rows, y + 1, 0, 6));
    }
    assert_eq!(text_of(&framed_rows, 0, 0, 6), "\u{2554}\u{2550}\u{2550}\u{2550}\u{2550}\u{2557}");
    assert_eq!(text_of(&framed_rows, 4, 0, 6), "\u{255a}\u{2550}\u{2550}\u{2550}\u{2550}\u{255d}");
}

#[test]
fn the_board_describes_its_slots() {
    let colors = no_colors();
    let mut canvas = Canvas::new(100, 100);
    let mut game = Board::new(SmallRng::seed_from_u64(10));
    game.set_initial_round(generate_round_from(&[(BoardIdx(0, 0), 2)]));
    let tb = Tui48Board::new(&game, &mut canvas, &colors).ok().unwrap();
    let text = tb.describe(&canvas);
    let lines: Vec<&str> = text.split('\n').collect();
    assert_eq!(lines.len(), 4 * 7 + 1);
    assert_eq!(lines[0], "=".repeat(92));
    assert!(lines[1].starts_with("val    :             2|val    :              |"));
    assert!(lines[2].starts_with("bidx   :     ridx(0,0)|"));
    assert!(lines[3].starts_with("cidx   :    idx(8,6,4)|"));
    assert!(lines[4].starts_with("newval :              |"));
    assert!(lines[5].starts_with("to_cidx:              |"));
    assert_eq!(lines[6], ".".repeat(92));
    assert_eq!(lines[28], "");
}
