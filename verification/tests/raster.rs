use raytrace_core::error::RenderError;
use raytrace_core::raster::{
    assemble, encode_row, join_rows, pixel_offset, push_pixel, render_parallel, render_row, render_with,
};

#[test]
fn raw_length_is_four_bytes_per_pixel() {
    let buffer = render_with(7, 5, |i, j| (i as u8, j as u8, 9)).unwrap();
    assert_eq!(buffer.len(), 7 * 5 * 4);
}

#[test]
fn raw_rows_run_top_down_and_columns_left_to_right() {
    let buffer = render_with(3, 2, |i, j| (i as u8, j as u8, 40 + (j * 3 + i) as u8)).unwrap();
    assert_eq!(
        buffer,
        vec![
            0, 0, 40, 255, 1, 0, 41, 255, 2, 0, 42, 255, 0, 1, 43, 255, 1, 1, 44, 255, 2, 1, 45, 255
        ]
    );
}

#[test]
fn zero_width_or_height_is_refused() {
    assert_eq!(render_with(0, 4, |_, _| (1, 2, 3)), Err(RenderError::InvalidDimensions));
    assert_eq!(render_with(4, 0, |_, _| (1, 2, 3)), Err(RenderError::InvalidDimensions));
    assert_eq!(render_with(0, 0, |_, _| (1, 2, 3)), Err(RenderError::InvalidDimensions));
    assert_eq!(assemble(0, 3, &vec![]), Err(RenderError::InvalidDimensions));
    assert_eq!(assemble(3, 0, &vec![]), Err(RenderError::InvalidDimensions));
}

#[test]
fn assemble_lays_out_pixels_in_order() {
    let pixels = vec![(1, 2, 3), (4, 5, 6), (7, 8, 9), (10, 11, 12)];
    let buffer = assemble(2, 2, &pixels).unwrap();
    assert_eq!(buffer, vec![1, 2, 3, 255, 4, 5, 6, 255, 7, 8, 9, 255, 10, 11, 12, 255]);
}

#[test]
fn push_pixel_appends_four_bytes() {
    let mut buffer = vec![9u8];
    push_pixel(&mut buffer, (1, 2, 3));
    assert_eq!(buffer, vec![9, 1, 2, 3, 255]);
}

#[test]
fn encoded_rows_join_into_the_raster() {
    let top = vec![(1, 1, 1), (2, 2, 2)];
    let bottom = vec![(3, 3, 3), (4, 4, 4)];
    let rows = vec![encode_row(&top), encode_row(&bottom)];
    let joined = join_rows(&rows);
    let all = vec![(1, 1, 1), (2, 2, 2), (3, 3, 3), (4, 4, 4)];
    assert_eq!(joined, assemble(2, 2, &all).unwrap());
    assert_eq!(join_rows(&vec![]), Vec::<u8>::new());
}

#[test]
fn pixel_offset_is_row_major() {
    assert_eq!(pixel_offset(5, 0, 0), 0);
    assert_eq!(pixel_offset(5, 4, 0), 16);
    assert_eq!(pixel_offset(5, 0, 1), 20);
    assert_eq!(pixel_offset(5, 3, 2), 52);
    let buffer = render_with(5, 3, |i, j| (i as u8, j as u8, 0)).unwrap();
    let at = pixel_offset(5, 3, 2);
    assert_eq!(&buffer[at..at + 4], &[3, 2, 0, 255]);
}

#[test]
fn render_row_asks_each_column_in_order() {
    let row = render_row(4, 7, &|i, j| (i as u8, j as u8, (i * j) as u8));
    assert_eq!(row, vec![0, 7, 0, 255, 1, 7, 7, 255, 2, 7, 14, 255, 3, 7, 21, 255]);
    assert_eq!(render_row(0, 3, &|_, _| (1, 1, 1)), Vec::<u8>::new());
}

#[test]
fn parallel_render_keeps_the_rows_in_order() {
    let shade = |i: usize, j: usize| ((i % 251) as u8, (j % 241) as u8, ((i * 31 + j * 17) % 256) as u8);
    let (width, height) = (97, 203);
    let parallel = render_parallel(width, height, &shade).unwrap();
    let sequential = render_with(width, height, shade).unwrap();
    assert_eq!(parallel.len(), width * height * 4);
    assert_eq!(parallel, sequential);
    for j in [0, 1, 100, 202] {
        for i in [0, 50, 96] {
            let at = pixel_offset(width, i, j);
            let (r, g, b) = shade(i, j);
            assert_eq!(&parallel[at..at + 4], &[r, g, b, 255]);
        }
    }
}

#[test]
fn parallel_render_refuses_empty_rasters() {
    let shade = |_: usize, _: usize| (1u8, 2u8, 3u8);
    assert_eq!(render_parallel(0, 5, &shade), Err(RenderError::InvalidDimensions));
    assert_eq!(render_parallel(5, 0, &shade), Err(RenderError::InvalidDimensions));
    assert_eq!(render_parallel(1, 1, &shade), Ok(vec![1, 2, 3, 255]));
}

#[test]
fn assemble_refuses_pixels_that_do_not_fill_the_raster() {
    let pixels = vec![(1u8, 2u8, 3u8); 6];
    assert_eq!(assemble(2, 2, &pixels), Err(RenderError::InvalidDimensions));
    assert_eq!(assemble(7, 1, &pixels), Err(RenderError::InvalidDimensions));
    assert_eq!(assemble(usize::MAX, usize::MAX, &pixels), Err(RenderError::InvalidDimensions));
    assert_eq!(assemble(3, 2, &pixels).unwrap().len(), 24);
    assert_eq!(assemble(6, 1, &pixels).unwrap().len(), 24);
}
