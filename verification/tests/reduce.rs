use detemplatize::palette::Palette;
use detemplatize::reduce::reduce_block;
use detemplatize::reduce::TRANSPARENT_PIXEL;

const RED: [u8; 4] = [255, 0, 0, 255];
const GREEN: [u8; 4] = [0, 255, 0, 255];
const BLUE: [u8; 4] = [0, 0, 255, 255];
const CLEAR: [u8; 4] = [0, 0, 0, 0];
const GREY: [u8; 4] = [128, 128, 128, 255];

fn red_green() -> Palette {
    let mut palette = Palette::new();
    palette.push(255, 0, 0);
    palette.push(0, 255, 0);
    palette
}

fn red_green_blue() -> Palette {
    let mut palette = red_green();
    palette.push(0, 0, 255);
    palette
}

#[test]
fn the_sentinel_is_255() {
    assert_eq!(TRANSPARENT_PIXEL, 255);
}

#[test]
fn two_red_one_green_one_transparent_is_red() {
    let block = vec![RED, RED, GREEN, CLEAR];
    assert_eq!(reduce_block(&block, 2, 2, &red_green()), 0);
}

#[test]
fn four_transparent_pixels_are_the_sentinel() {
    let block = vec![CLEAR, CLEAR, CLEAR, CLEAR];
    assert_eq!(reduce_block(&block, 2, 2, &red_green()), 255);
}

#[test]
fn transparent_pixels_count_for_nothing_whatever_their_color() {
    let block = vec![[255, 0, 0, 0], [255, 0, 0, 0], [0, 255, 0, 0], [7, 7, 7, 0]];
    assert_eq!(reduce_block(&block, 2, 2, &red_green()), TRANSPARENT_PIXEL);
    let block = vec![[255, 0, 0, 0], [255, 0, 0, 0], [255, 0, 0, 0], [0, 255, 0, 1]];
    assert_eq!(reduce_block(&block, 4, 1, &red_green()), 1);
}

#[test]
fn any_alpha_above_zero_is_opaque() {
    let block = vec![[0, 255, 0, 1], [0, 255, 0, 128], [255, 0, 0, 255]];
    assert_eq!(reduce_block(&block, 3, 1, &red_green()), 1);
}

#[test]
fn uniform_block_maps_to_its_color() {
    let block = vec![GREEN; 6];
    assert_eq!(reduce_block(&block, 3, 2, &red_green_blue()), 1);
    let block = vec![BLUE, CLEAR, BLUE, CLEAR];
    assert_eq!(reduce_block(&block, 2, 2, &red_green_blue()), 2);
}

#[test]
fn strict_plurality_wins() {
    let block = vec![BLUE, RED, BLUE, GREEN, BLUE, RED];
    assert_eq!(reduce_block(&block, 2, 3, &red_green_blue()), 2);
    let block = vec![RED, GREEN, GREEN, BLUE, GREEN, RED, BLUE, GREEN, CLEAR];
    assert_eq!(reduce_block(&block, 3, 3, &red_green_blue()), 1);
}

#[test]
fn unmatched_pixels_do_not_vote() {
    let with = vec![GREY, GREY, GREY, GREEN];
    let without = vec![GREEN];
    let palette = red_green();
    assert_eq!(reduce_block(&with, 2, 2, &palette), 1);
    assert_eq!(
        reduce_block(&with, 2, 2, &palette),
        reduce_block(&without, 1, 1, &palette)
    );
    let only_unmatched = vec![GREY, [1, 0, 0, 255], [254, 0, 0, 255], [255, 0, 1, 255]];
    assert_eq!(reduce_block(&only_unmatched, 2, 2, &palette), 255);
}

#[test]
fn unmatched_pixels_do_not_break_a_tie() {
    let block = vec![GREEN, GREY, GREY, RED];
    assert_eq!(reduce_block(&block, 2, 2, &red_green()), 0);
    let block = vec![GREY, GREEN, RED, GREY];
    assert_eq!(reduce_block(&block, 2, 2, &red_green()), 0);
}

#[test]
fn a_tie_goes_to_the_lowest_index() {
    let block = vec![GREEN, RED];
    assert_eq!(reduce_block(&block, 2, 1, &red_green_blue()), 0);
    let block = vec![BLUE, GREEN, BLUE, GREEN];
    assert_eq!(reduce_block(&block, 2, 2, &red_green_blue()), 1);
    let block = vec![BLUE, GREEN, RED, BLUE, RED, GREEN];
    assert_eq!(reduce_block(&block, 3, 2, &red_green_blue()), 0);
}

#[test]
fn the_order_of_the_pixels_does_not_matter() {
    let palette = red_green_blue();
    let one = vec![RED, GREEN, GREEN, CLEAR, BLUE, GREEN];
    let other = vec![GREEN, BLUE, CLEAR, GREEN, GREEN, RED];
    assert_eq!(reduce_block(&one, 3, 2, &palette), 1);
    assert_eq!(reduce_block(&other, 2, 3, &palette), 1);
}

#[test]
fn empty_block_is_the_sentinel() {
    let block: Vec<[u8; 4]> = vec![];
    assert_eq!(reduce_block(&block, 0, 0, &red_green()), 255);
    assert_eq!(reduce_block(&block, 0, 5, &red_green()), 255);
    assert_eq!(reduce_block(&block, 5, 0, &red_green()), 255);
}

#[test]
fn empty_palette_gives_the_sentinel() {
    let block = vec![RED, GREEN, BLUE, GREY];
    assert_eq!(reduce_block(&block, 2, 2, &Palette::new()), 255);
}

#[test]
fn repeated_palette_color_votes_for_its_later_index() {
    let mut palette = Palette::new();
    palette.push(255, 0, 0);
    palette.push(0, 255, 0);
    palette.push(255, 0, 0);
    let block = vec![RED, RED, GREEN, CLEAR];
    assert_eq!(reduce_block(&block, 2, 2, &palette), 2);
}

#[test]
fn reducing_twice_gives_the_same_byte() {
    let palette = red_green_blue();
    let block = vec![BLUE, RED, GREY, RED, CLEAR, GREEN];
    let first = reduce_block(&block, 3, 2, &palette);
    let second = reduce_block(&block, 3, 2, &palette);
    assert_eq!(first, 0);
    assert_eq!(first, second);
}
