use maze::maze::Direction;
use maze::maze::Maze;
use maze::rng::MazeRng;

#[test]
fn text_rows_for_single_cell_with_left_and_right_open() {
    let mut m = Maze::new(1, 1);
    m.set_wall(0, 0, Direction::Left, false);
    m.set_wall(0, 0, Direction::Right, false);
    let rows = m.render_rows();
    assert_eq!(rows.len(), 2);
    assert_eq!(rows[0], vec!['╶', '─', '╴', ' ']);
    assert_eq!(rows[1], vec!['╶', '─', '╴', ' ']);
}

#[test]
fn text_rows_for_fully_walled_single_cell() {
    let m = Maze::new(1, 1);
    let rows = m.render_rows();
    assert_eq!(rows[0], vec!['┌', '─', '┐', ' ']);
    assert_eq!(rows[1], vec!['└', '─', '┘', ' ']);
}

#[test]
fn text_rows_have_expected_shape() {
    let mut rng = MazeRng::from_seed(5);
    let m = Maze::generate_perfect(4, 3, &mut rng);
    let rows = m.render_rows();
    assert_eq!(rows.len(), 4);
    for row in &rows {
        assert_eq!(row.len(), 10);
    }
}

#[test]
fn image_scale_matches_the_documented_formula() {
    let m = Maze::new(10, 10);
    // unscaled canvas 21x21, floor(1000 / 21) = 47
    assert_eq!(m.image_scale(1000), 47);
    // a target smaller than the canvas clamps to 1
    assert_eq!(m.image_scale(10), 1);
    let m2 = Maze::new(2, 1);
    // unscaled 5x3, floor(12 / 5) = 2
    assert_eq!(m2.image_scale(12), 2);
}

#[test]
fn image_dims_for_the_ten_by_ten_scenario() {
    let mut rng = MazeRng::from_seed(11);
    let m = Maze::generate_perfect(10, 10, &mut rng);
    let (w, h) = m.image_dims(1000);
    assert_eq!((w, h), (987, 987));
    let data = m.image_bytes(1000);
    // 987 pixels pack into 124 bytes per scanline
    assert_eq!(data.len(), 987 * 124);
}

#[test]
fn image_bytes_for_known_single_cell_maze() {
    let mut m = Maze::new(1, 1);
    m.set_wall(0, 0, Direction::Left, false);
    m.set_wall(0, 0, Direction::Right, false);
    // unscaled 3x3 at scale 1: black skeleton row, open middle row, black
    // bottom row; white bits are 1, rows padded with zeros
    let data = m.image_bytes(3);
    assert_eq!(data, vec![0b0000_0000, 0b1110_0000, 0b0000_0000]);
}

#[test]
fn image_bytes_show_carved_walls_as_white() {
    let mut m = Maze::new(2, 1);
    m.set_wall(0, 0, Direction::Right, false);
    // unscaled 5x3 at scale 1; middle row: left wall black, cell white,
    // carved divider white, cell white, right wall black
    let data = m.image_bytes(5);
    assert_eq!(data.len(), 3);
    assert_eq!(data[1], 0b0111_0000);
}

#[test]
fn png_bytes_decode_back_to_the_raster() {
    let mut m = Maze::new(1, 1);
    m.set_wall(0, 0, Direction::Up, false);
    m.set_wall(0, 0, Direction::Down, false);
    let bytes = m.maze_png_bytes(3).ok().expect("encoding failed");
    assert_eq!(&bytes[0..8], &[137, 80, 78, 71, 13, 10, 26, 10]);
    let decoder = png::Decoder::new(&bytes[..]);
    let mut reader = decoder.read_info().expect("bad png");
    let mut buf = vec![0u8; reader.output_buffer_size()];
    let info = reader.next_frame(&mut buf).expect("bad frame");
    assert_eq!((info.width, info.height), (3, 3));
    assert_eq!(info.bit_depth, png::BitDepth::One);
    assert_eq!(info.color_type, png::ColorType::Grayscale);
    let expected = m.image_bytes(3);
    assert_eq!(&buf[0..info.buffer_size()], &expected[..]);
}

#[test]
fn png_bytes_for_generated_maze_have_expected_dimensions() {
    let mut rng = MazeRng::from_seed(21);
    let m = Maze::generate_perfect(10, 10, &mut rng);
    let bytes = m.maze_png_bytes(1000).ok().expect("encoding failed");
    let decoder = png::Decoder::new(&bytes[..]);
    let reader = decoder.read_info().expect("bad png");
    let info = reader.info();
    assert_eq!((info.width, info.height), (987, 987));
}
