use tracer::canvas::canvas_of;
use tracer::render::chunk_ranges;
use tracer::render::pixel_coords;
use tracer::render::render;
use tracer::render::render_chunk;
use tracer::render::render_chunked;
use tracer::render::write_triples;

#[test]
fn pixel_indices_scan_the_canvas_row_by_row() {
    assert_eq!(pixel_coords(0, 10), (0, 0));
    assert_eq!(pixel_coords(9, 10), (9, 0));
    assert_eq!(pixel_coords(10, 10), (0, 1));
    assert_eq!(pixel_coords(57, 10), (7, 5));
}

#[test]
fn chunks_partition_the_index_space() {
    for &(n, workers) in &[(4000000usize, 16usize), (11, 3), (7, 16), (0, 4), (5, 1)] {
        let ranges = chunk_ranges(n, workers);
        assert_eq!(ranges.len(), workers);
        let mut next = 0;
        for &(start, end) in &ranges {
            assert_eq!(start, next, "ranges must be contiguous");
            assert!(start <= end);
            next = end;
        }
        assert_eq!(next, n, "ranges must cover every pixel");
    }
}

#[test]
fn a_chunk_is_the_ceiling_of_pixels_over_workers() {
    assert_eq!(chunk_ranges(11, 3), vec![(0, 4), (4, 8), (8, 11)]);
    assert_eq!(chunk_ranges(12, 3), vec![(0, 4), (4, 8), (8, 12)]);
    assert_eq!(chunk_ranges(2, 4), vec![(0, 1), (1, 2), (2, 2), (2, 2)]);
}

#[test]
fn a_worker_emits_one_triple_per_pixel_of_its_range() {
    let shade = |x: usize, y: usize| (x + 10 * y) as u32;
    let triples = render_chunk(&shade, 3, 7, 4);
    assert_eq!(
        triples,
        vec![(3, 0, 3), (0, 1, 10), (1, 1, 11), (2, 1, 12)]
    );
}

#[test]
fn triples_fill_the_canvas_wherever_they_arrive() {
    let mut c = canvas_of(2, 2, 0u32);
    // arrival order scrambled, as a channel might deliver it
    let triples = vec![(1, 1, 4u32), (0, 0, 1), (1, 0, 2), (0, 1, 3)];
    write_triples(&mut c, &triples);
    assert_eq!(c.pixels, vec![1, 2, 3, 4]);
}

#[test]
fn parallel_and_single_threaded_render_agree_pixel_for_pixel() {
    let shade = |x: usize, y: usize| (1000 * x + y) as u64;
    let plain = render(&shade, 33, 17, 0u64);
    for workers in [1usize, 2, 5, 16, 600] {
        let chunked = render_chunked(&shade, 33, 17, 0u64, workers);
        assert_eq!(chunked.width, plain.width);
        assert_eq!(chunked.height, plain.height);
        assert_eq!(chunked.pixels, plain.pixels, "workers = {}", workers);
    }
}
