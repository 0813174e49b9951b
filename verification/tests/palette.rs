use dre::palette::{next_on_palette, palette, BACKGROUND, FOREGROUND, PALETTE_LEN};

#[test]
fn palette_has_a_colour_at_index_zero() {
    assert!(palette(0).is_some());
}

#[test]
fn palette_has_the_foreground_colour_at_its_index() {
    assert_eq!(palette(FOREGROUND), Some((232, 234, 237)));
}

#[test]
fn palette_has_the_background_colour_at_its_index() {
    assert_eq!(palette(BACKGROUND), Some((10, 11, 13)));
}

#[test]
fn palette_has_no_colour_past_its_last_index() {
    let first_missing = (0..=u8::MAX).find(|&i| palette(i).is_none()).unwrap();
    assert!(first_missing > 0);
    assert_eq!(palette(first_missing), None);
    assert!((first_missing..=u8::MAX).all(|i| palette(i).is_none()));
}

fn last_index() -> u8 {
    (0..=u8::MAX)
        .take_while(|&i| palette(i).is_some())
        .last()
        .unwrap()
}

#[test]
fn next_on_palette_starts_plain_boxes_on_the_first_colour() {
    assert_eq!(next_on_palette(None), Some(0));
}

#[test]
fn next_on_palette_advances_to_the_following_colour() {
    assert_eq!(next_on_palette(Some(0)), Some(1));
}

#[test]
fn next_on_palette_turns_the_last_colour_plain() {
    assert_eq!(next_on_palette(Some(last_index())), None);
}

#[test]
fn next_on_palette_cycles_through_the_palette_and_back_to_plain() {
    let mut colour = None;
    for _ in 0..=last_index() {
        colour = next_on_palette(colour);
    }
    assert_eq!(colour, Some(last_index()));
    assert_eq!(next_on_palette(colour), None);
}

#[test]
fn state_next_colour_cycles_through_the_palette_and_back_to_plain() {
    let mut colour = None;
    for _ in (0..).take_while(|&i| palette(i).is_some()) {
        colour = next_on_palette(colour);
    }
    assert_ne!(colour, None);
    colour = next_on_palette(colour);
    assert_eq!(colour, None);
}

#[test]
fn the_palette_length_counts_every_colour() {
    assert_eq!(last_index() + 1, PALETTE_LEN);
}

#[test]
fn cycling_as_many_times_as_there_are_colours_and_one_more_comes_back() {
    let mut colour = Some(3);
    for _ in 0..=PALETTE_LEN {
        colour = next_on_palette(colour);
    }
    assert_eq!(colour, Some(3));
}
