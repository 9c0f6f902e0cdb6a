use piet::codel::{Codel, Direction};
use piet::grid::{can_go_in_direction, get_farthest_codel};
use piet::machine::{Machine, Pending, StepOutcome, SyscallArg};
use piet::ops::PietError;
use piet::palette::{color_from_rgb, decode_grid};
use piet::pietcolor::{Hue, Lightness, PietColor};

fn c(hue: Hue, lightness: Lightness) -> PietColor {
    PietColor { hue, lightness }
}

fn nr() -> PietColor {
    c(Hue::Red, Lightness::Normal)
}

fn white() -> PietColor {
    c(Hue::White, Lightness::Normal)
}

fn black() -> PietColor {
    c(Hue::Black, Lightness::Normal)
}

fn grid(rows: &[&[PietColor]]) -> Vec<Vec<Codel>> {
    rows.iter()
        .enumerate()
        .map(|(y, row)| {
            row.iter().enumerate().map(|(x, color)| Codel { color: *color, x, y }).collect()
        })
        .collect()
}

#[test]
fn block_size_counts_the_connected_region() {
    // an L-shaped region of four red cells amid yellow
    let ny = c(Hue::Yellow, Lightness::Normal);
    let pic = grid(&[
        &[nr(), ny, ny],
        &[nr(), ny, ny],
        &[nr(), nr(), ny],
    ]);
    for dp in [Direction::Right, Direction::Left, Direction::Down, Direction::Up] {
        for cc in [Direction::Left, Direction::Right] {
            let (size, _) = get_farthest_codel(&pic, 0, 0, dp, cc);
            assert_eq!(size, 4);
        }
    }
    // seeded from any cell of the region, the same count comes back
    let (size, _) = get_farthest_codel(&pic, 1, 2, Direction::Up, Direction::Left);
    assert_eq!(size, 4);
    // the yellow region holds the other five cells
    let (size, _) = get_farthest_codel(&pic, 2, 0, Direction::Right, Direction::Left);
    assert_eq!(size, 5);
}

#[test]
fn farthest_codel_follows_pointer_and_chooser() {
    let pic = grid(&[
        &[nr(), nr()],
        &[nr(), nr()],
    ]);
    let (_, far) = get_farthest_codel(&pic, 0, 0, Direction::Right, Direction::Left);
    assert_eq!((far.x, far.y), (1, 0));
    let (_, far) = get_farthest_codel(&pic, 0, 0, Direction::Right, Direction::Right);
    assert_eq!((far.x, far.y), (1, 1));
    let (_, far) = get_farthest_codel(&pic, 0, 0, Direction::Down, Direction::Left);
    assert_eq!((far.x, far.y), (1, 1));
    let (_, far) = get_farthest_codel(&pic, 0, 0, Direction::Up, Direction::Left);
    assert_eq!((far.x, far.y), (0, 0));
}

#[test]
fn white_run_slides_to_its_last_white_cell() {
    // a straight horizontal run of White bounded by colors on both ends
    let pic = grid(&[&[nr(), white(), white(), white(), nr()]]);
    let (size, far) = get_farthest_codel(&pic, 1, 0, Direction::Right, Direction::Left);
    assert_eq!(size, 0);
    assert_eq!((far.x, far.y), (3, 0));
    // sliding left from the right end lands on the leftmost White cell
    let (size, far) = get_farthest_codel(&pic, 3, 0, Direction::Left, Direction::Left);
    assert_eq!(size, 0);
    assert_eq!((far.x, far.y), (1, 0));
}

#[test]
fn white_slide_stops_at_the_grid_edge() {
    let pic = grid(&[&[white(), white(), white()]]);
    let (size, far) = get_farthest_codel(&pic, 0, 0, Direction::Right, Direction::Left);
    assert_eq!(size, 0);
    assert_eq!((far.x, far.y), (2, 0));
}

#[test]
fn can_go_refuses_edges_and_black() {
    let pic = grid(&[&[nr(), black(), white()]]);
    let start = pic[0][0];
    let (ok, found) = can_go_in_direction(&pic, &start, Direction::Right);
    assert!(!ok);
    assert_eq!((found.x, found.y), (0, 0));
    let (ok, _) = can_go_in_direction(&pic, &start, Direction::Left);
    assert!(!ok);
    let (ok, _) = can_go_in_direction(&pic, &start, Direction::Up);
    assert!(!ok);
    let (ok, _) = can_go_in_direction(&pic, &start, Direction::Down);
    assert!(!ok);
    let mid = pic[0][1];
    let (ok, found) = can_go_in_direction(&pic, &mid, Direction::Right);
    assert!(ok);
    assert_eq!((found.x, found.y), (2, 0));
}

#[test]
fn push_then_output_number_runs_a_tiny_program() {
    // two normal-red cells, a dark-red cell (push the block size 2),
    // then a light-magenta cell (output the number)
    let pic = grid(&[&[
        nr(),
        nr(),
        c(Hue::Red, Lightness::Dark),
        c(Hue::Magenta, Lightness::Light),
    ]]);
    let mut m = Machine::new(pic[0][0], false);
    assert!(matches!(m.step(&pic), Ok(StepOutcome::Continue)));
    assert_eq!(m.stack, vec![2]);
    assert_eq!((m.cur.x, m.cur.y), (2, 0));
    match m.step(&pic) {
        Ok(StepOutcome::OutputNumber(v)) => assert_eq!(v, 2),
        other => panic!("unexpected outcome: {:?}", other),
    }
    assert_eq!(m.stack, Vec::<i64>::new());
}

#[test]
fn add_on_an_empty_stack_is_a_no_op() {
    // a 2-by-1 normal-red block adjacent to a 1-by-1 normal-yellow block:
    // hue distance 1, lightness distance 0 is an add, skipped on the empty
    // starting stack
    let ny = c(Hue::Yellow, Lightness::Normal);
    let pic = grid(&[&[nr(), nr(), ny]]);
    let mut m = Machine::new(pic[0][0], false);
    assert!(matches!(m.step(&pic), Ok(StepOutcome::Continue)));
    assert_eq!(m.stack, Vec::<i64>::new());
    assert_eq!((m.cur.x, m.cur.y), (2, 0));
    // from the yellow dead end the only way out leads back into the red
    // block (a character-input transition); the stack stays empty
    assert!(matches!(m.step(&pic), Ok(StepOutcome::NeedChar)));
    m.provide_char(None);
    assert_eq!(m.stack, Vec::<i64>::new());
}

#[test]
fn isolated_codel_halts_without_any_instruction() {
    // a single chromatic codel surrounded entirely by Black: eight blocked
    // attempts, then a normal halt with pointer and chooser restored
    let pic = grid(&[
        &[black(), black(), black()],
        &[black(), nr(), black()],
        &[black(), black(), black()],
    ]);
    let mut m = Machine::new(pic[1][1], false);
    assert!(matches!(m.step(&pic), Ok(StepOutcome::Halted)));
    assert_eq!(m.stack, Vec::<i64>::new());
    assert_eq!((m.cur.x, m.cur.y), (1, 1));
    assert_eq!(m.dp, Direction::Right);
    assert_eq!(m.cc, Direction::Left);
}

#[test]
fn single_codel_grid_halts() {
    let pic = grid(&[&[nr()]]);
    let mut m = Machine::new(pic[0][0], false);
    assert!(matches!(m.step(&pic), Ok(StepOutcome::Halted)));
}

#[test]
fn number_input_parses_or_skips() {
    // normal-red to light-blue: hue distance 4, lightness distance 2 reads
    // a number
    let pic = grid(&[&[nr(), c(Hue::Blue, Lightness::Light)]]);
    let mut m = Machine::new(pic[0][0], false);
    assert!(matches!(m.step(&pic), Ok(StepOutcome::NeedNumberLine)));
    assert_eq!(m.pending, Pending::AwaitingNumber);
    assert_eq!(m.provide_number_line(b"41\n"), Ok(()));
    assert_eq!(m.stack, vec![41]);
    assert_eq!(m.pending, Pending::Idle);
}

#[test]
fn bad_number_input_is_fatal_only_in_debug_mode() {
    let pic = grid(&[&[nr(), c(Hue::Blue, Lightness::Light)]]);
    let mut m = Machine::new(pic[0][0], false);
    assert!(matches!(m.step(&pic), Ok(StepOutcome::NeedNumberLine)));
    assert_eq!(m.provide_number_line(b"not a number"), Ok(()));
    assert_eq!(m.stack, Vec::<i64>::new());

    let mut dbg = Machine::new(pic[0][0], true);
    assert!(matches!(dbg.step(&pic), Ok(StepOutcome::NeedNumberLine)));
    assert_eq!(dbg.provide_number_line(b"not a number"), Err(PietError::BadNumberInput));
}

#[test]
fn division_by_zero_aborts_the_run() {
    // normal-red to normal-green: hue distance 2, lightness distance 0
    let pic = grid(&[&[nr(), c(Hue::Green, Lightness::Normal)]]);
    let mut m = Machine::new(pic[0][0], false);
    m.stack.push(7);
    m.stack.push(0);
    assert_eq!(
        match m.step(&pic) {
            Err(e) => e,
            Ok(o) => panic!("expected an error, got {:?}", o),
        },
        PietError::DivisionByZero
    );
    assert_eq!(m.stack, vec![7, 0]);
}

#[test]
fn pointer_rotates_by_the_popped_count() {
    // normal-red to dark-cyan: hue distance 3, lightness distance 1
    let pic = grid(&[&[nr(), c(Hue::Cyan, Lightness::Dark)]]);
    let mut m = Machine::new(pic[0][0], false);
    m.stack.push(5);
    assert!(matches!(m.step(&pic), Ok(StepOutcome::Continue)));
    // five clockwise quarter turns from Right land on Down
    assert_eq!(m.dp, Direction::Down);
    assert_eq!(m.stack, Vec::<i64>::new());

    let mut m = Machine::new(pic[0][0], false);
    m.stack.push(-3);
    assert!(matches!(m.step(&pic), Ok(StepOutcome::Continue)));
    // a negative operand performs no rotation
    assert_eq!(m.dp, Direction::Right);
}

#[test]
fn switch_toggles_by_parity() {
    // normal-red to light-cyan: hue distance 3, lightness distance 2
    let pic = grid(&[&[nr(), c(Hue::Cyan, Lightness::Light)]]);
    let mut m = Machine::new(pic[0][0], false);
    m.stack.push(3);
    assert!(matches!(m.step(&pic), Ok(StepOutcome::Continue)));
    assert_eq!(m.cc, Direction::Right);
    let mut m = Machine::new(pic[0][0], false);
    m.stack.push(4);
    assert!(matches!(m.step(&pic), Ok(StepOutcome::Continue)));
    assert_eq!(m.cc, Direction::Left);
}

#[test]
fn output_char_skips_invalid_code_points() {
    // normal-red to light-magenta: hue distance 5, lightness distance 2
    let pic = grid(&[&[nr(), c(Hue::Magenta, Lightness::Light)]]);
    let mut m = Machine::new(pic[0][0], false);
    m.stack.push(65);
    match m.step(&pic) {
        Ok(StepOutcome::OutputChar(v)) => assert_eq!(v, 65),
        other => panic!("unexpected outcome: {:?}", other),
    }
    let mut m = Machine::new(pic[0][0], false);
    m.stack.push(0xD800);
    assert!(matches!(m.step(&pic), Ok(StepOutcome::Continue)));
    assert_eq!(m.stack, Vec::<i64>::new());
}

#[test]
fn white_transition_is_a_no_op() {
    let pic = grid(&[&[nr(), white(), c(Hue::Green, Lightness::Normal)]]);
    let mut m = Machine::new(pic[0][0], false);
    m.stack.push(9);
    // the red start is colored, so the first step moves onto the white
    // cell; a transition involving White is a no-op
    assert!(matches!(m.step(&pic), Ok(StepOutcome::Continue)));
    assert_eq!(m.stack, vec![9]);
    assert_eq!((m.cur.x, m.cur.y), (1, 0));
    // from white it slides right and enters the green cell, again a no-op
    assert!(matches!(m.step(&pic), Ok(StepOutcome::Continue)));
    assert_eq!(m.stack, vec![9]);
    assert_eq!((m.cur.x, m.cur.y), (2, 0));
}

#[test]
fn smoke_transition_marshals_a_host_call() {
    let smoke = c(Hue::Smoke, Lightness::Normal);
    let pic = grid(&[&[smoke, nr()]]);
    let mut m = Machine::new(pic[0][0], false);
    // stack, bottom to top: extra value, one (type, value) pair, the
    // argument count, the call number
    m.stack.push(99);
    m.stack.push(7); // value
    m.stack.push(1); // type: literal
    m.stack.push(1); // argument count
    m.stack.push(60); // call number
    match m.step(&pic) {
        Ok(StepOutcome::SyscallRequest { num, args }) => {
            assert_eq!(num, 60);
            assert_eq!(args, vec![SyscallArg::Literal(7)]);
        },
        other => panic!("unexpected outcome: {:?}", other),
    }
    assert_eq!(m.stack, vec![99]);
    assert_eq!(m.pending, Pending::AwaitingSyscall);
    m.provide_syscall_result(0);
    assert_eq!(m.stack, vec![99, 0]);
    assert_eq!(m.pending, Pending::Idle);
}

#[test]
fn palette_maps_the_twenty_entries() {
    let fb = white();
    assert_eq!(color_from_rgb(0xFF, 0x00, 0x00, false, fb), nr());
    assert_eq!(
        color_from_rgb(0xC0, 0xFF, 0xFF, false, fb),
        c(Hue::Cyan, Lightness::Light)
    );
    assert_eq!(color_from_rgb(0x00, 0x00, 0x00, false, fb), black());
    assert_eq!(color_from_rgb(0xFF, 0xFF, 0xFF, false, fb), white());
    // the reserved gray: sentinel when host calls are enabled, fallback
    // otherwise
    assert_eq!(
        color_from_rgb(0xC0, 0xC0, 0xC0, true, fb),
        c(Hue::Smoke, Lightness::Normal)
    );
    assert_eq!(color_from_rgb(0xC0, 0xC0, 0xC0, false, fb), fb);
    // anything else maps to the fallback
    assert_eq!(color_from_rgb(0x12, 0x34, 0x56, false, black()), black());
}

#[test]
fn decode_grid_samples_every_codel() {
    // a 2 by 1 picture: normal red, then normal green
    let pixels: Vec<u8> = vec![0xFF, 0x00, 0x00, 0x00, 0xFF, 0x00];
    let pic = decode_grid(&pixels, 3, 2, 1, 1, white(), false);
    assert_eq!(pic.len(), 1);
    assert_eq!(pic[0].len(), 2);
    assert_eq!(pic[0][0].color, nr());
    assert_eq!(pic[0][1].color, c(Hue::Green, Lightness::Normal));
    assert_eq!((pic[0][1].x, pic[0][1].y), (1, 0));
}

#[test]
fn decode_grid_subsamples_by_codel_size() {
    // a 2 by 2 picture of one red codel at codel size 2: only the top-left
    // pixel is sampled
    let pixels: Vec<u8> = vec![
        0xFF, 0x00, 0x00, 0xFF, 0xFF, 0xFF, // red, white
        0x00, 0x00, 0x00, 0x00, 0x00, 0xFF, // black, blue
    ];
    let pic = decode_grid(&pixels, 3, 2, 2, 2, white(), false);
    assert_eq!(pic.len(), 1);
    assert_eq!(pic[0].len(), 1);
    assert_eq!(pic[0][0].color, nr());
}

#[test]
fn roll_transition_rearranges_the_stack() {
    // normal-red to dark-blue: hue distance 4, lightness distance 1 rolls;
    // the count is popped first, then the depth
    let pic = grid(&[&[nr(), c(Hue::Blue, Lightness::Dark)]]);
    let mut m = Machine::new(pic[0][0], false);
    for v in [1i64, 2, 3, 4, 5] {
        m.stack.push(v);
    }
    m.stack.push(3); // depth
    m.stack.push(2); // count
    assert!(matches!(m.step(&pic), Ok(StepOutcome::Continue)));
    assert_eq!(m.stack, vec![1, 2, 4, 5, 3]);
}

#[test]
fn roll_transition_with_excess_depth_is_fatal() {
    let pic = grid(&[&[nr(), c(Hue::Blue, Lightness::Dark)]]);
    let mut m = Machine::new(pic[0][0], false);
    m.stack.push(9); // the only value beneath the operands
    m.stack.push(4); // depth beyond the remaining stack
    m.stack.push(1); // count
    match m.step(&pic) {
        Err(e) => assert_eq!(e, PietError::StackTooShallow),
        Ok(o) => panic!("expected an error, got {:?}", o),
    }
    assert_eq!(m.stack, vec![9, 4, 1]);
}

#[test]
fn pop_transition_discards_the_top() {
    // normal-red to light-red: hue distance 0, lightness distance 2 pops
    let pic = grid(&[&[nr(), c(Hue::Red, Lightness::Light)]]);
    let mut m = Machine::new(pic[0][0], false);
    m.stack.push(1);
    m.stack.push(2);
    assert!(matches!(m.step(&pic), Ok(StepOutcome::Continue)));
    assert_eq!(m.stack, vec![1]);
}

#[test]
fn output_number_on_an_empty_stack_continues() {
    let pic = grid(&[&[c(Hue::Red, Lightness::Dark), c(Hue::Magenta, Lightness::Light)]]);
    let mut m = Machine::new(pic[0][0], false);
    assert!(matches!(m.step(&pic), Ok(StepOutcome::Continue)));
    assert_eq!(m.stack, Vec::<i64>::new());
}
