use room_search::coord::Coord;
use room_search::coord_set::CoordSet;
use room_search::parse::parse_init;
use room_search::render::render_room;

const SAMPLE: &str = "
###########|
#### G ####|
####OLO####|
##O#O  # ##|
#O  OOO  K#|
# OOO  OO #|
##@ O  O ##|
###########
";

fn cell(x: u8, y: u8) -> Coord {
    Coord::new(x, y).unwrap()
}

#[test]
fn sample_map_places_the_single_pieces() {
    let (i, m) = parse_init(SAMPLE.as_bytes()).unwrap();
    assert_eq!(i.goal_at, cell(5, 1));
    assert_eq!(i.lock_at, Some(cell(5, 2)));
    assert_eq!(i.key_at, Some(cell(9, 4)));
    assert_eq!(m.player_at, cell(2, 6));
    assert!(!m.got_key);
    assert!(!m.odd_moves_made);
    assert_eq!(m.skelly_at, CoordSet::empty());
    assert_eq!(i.odd_spikes_at, CoordSet::empty());
    assert_eq!(i.even_spikes_at, CoordSet::empty());
}

#[test]
fn sample_map_places_walls_and_rocks() {
    let (i, m) = parse_init(SAMPLE.as_bytes()).unwrap();
    let rows: Vec<&str> = SAMPLE.trim_matches('\n').split("|\n").collect();
    assert_eq!(rows.len(), 8);
    for y in 0..8u8 {
        let row = rows[y as usize].as_bytes();
        for x in 0..16u8 {
            let glyph = row.get(x as usize).copied().unwrap_or(b' ');
            assert_eq!(i.walls_at.contains(cell(x, y)), glyph == b'#');
            assert_eq!(m.rocks_at.contains(cell(x, y)), glyph == b'O');
        }
    }
}

#[test]
fn every_glyph_is_read() {
    let (i, m) = parse_init(b"@#O$,.KLG").unwrap();
    assert_eq!(m.player_at, cell(0, 0));
    assert_eq!(i.walls_at, CoordSet::from_coords(&[cell(1, 0)]));
    assert_eq!(m.rocks_at, CoordSet::from_coords(&[cell(2, 0)]));
    assert_eq!(m.skelly_at, CoordSet::from_coords(&[cell(3, 0)]));
    assert_eq!(i.odd_spikes_at, CoordSet::from_coords(&[cell(4, 0)]));
    assert_eq!(i.even_spikes_at, CoordSet::from_coords(&[cell(5, 0)]));
    assert_eq!(i.key_at, Some(cell(6, 0)));
    assert_eq!(i.lock_at, Some(cell(7, 0)));
    assert_eq!(i.goal_at, cell(8, 0));
}

#[test]
fn other_bytes_are_skipped() {
    let (i, m) = parse_init(b"\n\tx@yz\r\nG?").unwrap();
    assert_eq!(m.player_at, cell(0, 0));
    assert_eq!(i.goal_at, cell(1, 0));
}

#[test]
fn row_end_starts_the_next_row() {
    let (i, m) = parse_init(b"  |||   @| G").unwrap();
    assert_eq!(m.player_at, cell(3, 3));
    assert_eq!(i.goal_at, cell(1, 4));
}

#[test]
fn last_occurrence_of_a_single_piece_counts() {
    let (i, m) = parse_init(b"@G@G|KLKL").unwrap();
    assert_eq!(m.player_at, cell(2, 0));
    assert_eq!(i.goal_at, cell(3, 0));
    assert_eq!(i.key_at, Some(cell(2, 1)));
    assert_eq!(i.lock_at, Some(cell(3, 1)));
}

#[test]
fn map_without_player_or_goal_is_rejected() {
    assert_eq!(parse_init(b""), None);
    assert_eq!(parse_init(b"@"), None);
    assert_eq!(parse_init(b"G"), None);
    assert_eq!(parse_init(b"# O K L"), None);
    assert!(parse_init(b"@G").is_some());
}

#[test]
fn glyph_past_the_last_column_is_rejected() {
    assert!(parse_init(b"@G##############").is_some());
    assert_eq!(parse_init(b"@G###############"), None);
    assert_eq!(parse_init(b"@G               "), None);
    assert_eq!(parse_init(b"                @G"), None);
}

#[test]
fn glyph_past_the_last_row_is_rejected() {
    assert!(parse_init(b"@G|||||||#").is_some());
    assert_eq!(parse_init(b"@G||||||||#"), None);
    assert_eq!(parse_init(b"@G|||||||| "), None);
    assert!(parse_init(b"@G||||||||||||").is_some());
}

#[test]
fn many_row_ends_are_counted_without_wrapping() {
    let mut map = vec![b'@', b'G'];
    map.resize(2 + 256, b'|');
    assert!(parse_init(&map).is_some());
    map.push(b'#');
    assert_eq!(parse_init(&map), None);
}

#[test]
fn drawing_repeats_the_sample_map() {
    let (i, m) = parse_init(SAMPLE.as_bytes()).unwrap();
    let drawn = String::from_utf8(render_room(&i, &m)).unwrap();
    let expected = "\
###########     
#### G ####     
####OLO####     
##O#O  # ##     
#O  OOO  K#     
# OOO  OO #     
##@ O  O ##     
###########     
";
    assert_eq!(drawn, expected);
}

#[test]
fn drawing_has_eight_rows_of_sixteen_glyphs() {
    let (i, m) = parse_init(b"@G").unwrap();
    let drawn = render_room(&i, &m);
    assert_eq!(drawn.len(), 8 * 17);
    for (n, byte) in drawn.iter().enumerate() {
        let expected = match n {
            0 => b'@',
            1 => b'G',
            _ if n % 17 == 16 => b'\n',
            _ => b' ',
        };
        assert_eq!(*byte, expected);
    }
}
