use sokoban::level::Level;
use sokoban::picture::{image_to_level, level_to_image, tile_color, InvalidPixel, Pixel, Tile};

fn rgba(c: (u8, u8, u8)) -> Pixel {
    (c.0, c.1, c.2, 255)
}

#[test]
fn level_picture_has_key_and_cells() {
    let lvl = Level::parse(0, "#########\n#@ $.   #\n#########").unwrap();
    let img = level_to_image(&lvl);
    assert_eq!(img.len(), 9 * 4);
    assert_eq!(img[0], (0, 0, 0));
    assert_eq!(img[1], tile_color(Tile::Wall));
    assert_eq!(img[7], tile_color(Tile::WorkerOnGoal));
    assert_eq!(img[8], tile_color(Tile::Empty));
    assert_eq!(img[9], (255, 0, 0));
    assert_eq!(img[9 + 10], tile_color(Tile::Worker));
    assert_eq!(img[9 + 11], tile_color(Tile::Floor));
    assert_eq!(img[9 + 12], tile_color(Tile::Crate));
    assert_eq!(img[9 + 13], tile_color(Tile::Goal));
}

#[test]
fn picture_round_trip() {
    let text = "#########\n#@ $.   #\n#########";
    let lvl = Level::parse(0, text).unwrap();
    let img: Vec<Pixel> = level_to_image(&lvl).into_iter().map(rgba).collect();
    let back = image_to_level(lvl.columns, &img).unwrap();
    assert_eq!(back, "#########\n#@ $.   #\n#########\n");
}

#[test]
fn trailing_spaces_are_cut() {
    let key: Vec<Pixel> = (0..8u8).map(|i| (i, i, i, 255)).collect();
    let mut pixels = key.clone();
    // row: wall, crate on goal, empty, floor, empty, floor, empty, empty
    for &k in &[1usize, 4, 0, 2, 0, 2, 0, 0] {
        pixels.push(key[k]);
    }
    assert_eq!(image_to_level(8, &pixels).unwrap(), "#*\n");
}

#[test]
fn unknown_colour_is_reported_with_its_position() {
    let key: Vec<Pixel> = (0..8u8).map(|i| (i, i, i, 255)).collect();
    let mut pixels = key.clone();
    for &k in &[1usize, 1, 1, 1, 1, 1, 1, 1] {
        pixels.push(key[k]);
    }
    for _ in 0..3 {
        pixels.push(key[3]);
    }
    pixels.push((9, 9, 9, 9));
    for _ in 0..4 {
        pixels.push((200, 0, 0, 0));
    }
    assert_eq!(image_to_level(8, &pixels), Err(InvalidPixel { x: 3, y: 2 }));
}

#[test]
fn key_only_picture_is_empty_text() {
    let key: Vec<Pixel> = (0..8u8).map(|i| (i, i, i, 255)).collect();
    assert_eq!(image_to_level(8, &key).unwrap(), "");
}

#[test]
fn picture_round_trip_drops_outside_and_trailing_cells() {
    let text = "  #######\n###  .  #\n#@ $    #\n#########";
    let lvl = Level::parse(0, text).unwrap();
    let img: Vec<Pixel> = level_to_image(&lvl).into_iter().map(rgba).collect();
    assert_eq!(img.len(), lvl.columns * (lvl.rows + 1));
    let back = image_to_level(lvl.columns, &img).unwrap();
    assert_eq!(back, "  #######\n###  .  #\n#@ $    #\n#########\n");
}
