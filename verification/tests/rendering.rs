use fractal::error::Error;
use fractal::eval::Slot;
use fractal::render::{assemble, coordinates, partition, plan, Chunk};

fn chunk(start: u64, length: u64) -> Chunk {
    Chunk { start, length }
}

fn shade(index: u64) -> u8 {
    ((index * 37 + 11) % 251) as u8
}

fn work(chunk: &Chunk) -> Result<Vec<u8>, Error> {
    Ok((chunk.start..chunk.start + chunk.length).map(shade).collect())
}

#[test]
fn remainder_goes_to_the_last_range() {
    assert_eq!(partition(10, 3), vec![chunk(0, 3), chunk(3, 3), chunk(6, 4)]);
    assert_eq!(partition(7, 2), vec![chunk(0, 3), chunk(3, 4)]);
}

#[test]
fn even_split_has_equal_ranges() {
    assert_eq!(partition(12, 4), vec![chunk(0, 3), chunk(3, 3), chunk(6, 3), chunk(9, 3)]);
    assert_eq!(partition(4, 4), vec![chunk(0, 1), chunk(1, 1), chunk(2, 1), chunk(3, 1)]);
}

#[test]
fn fewer_pixels_than_workers_is_a_single_range() {
    assert_eq!(partition(2, 4), vec![chunk(0, 2)]);
    assert_eq!(partition(0, 3), vec![chunk(0, 0)]);
}

#[test]
fn one_worker_gets_every_pixel() {
    assert_eq!(partition(9, 1), vec![chunk(0, 9)]);
}

#[test]
fn ranges_follow_one_another() {
    for total in 0..40u64 {
        for workers in 1..12u64 {
            let chunks = partition(total, workers);
            let mut next = 0;
            for chunk in &chunks {
                assert_eq!(chunk.start, next);
                next += chunk.length;
            }
            assert_eq!(next, total);
        }
    }
}

#[test]
fn plan_covers_the_image() {
    let chunks = plan(2, 2);
    assert!(!chunks.is_empty());
    let mut next = 0;
    for chunk in &chunks {
        assert_eq!(chunk.start, next);
        next += chunk.length;
    }
    assert_eq!(next, 4);
    let chunks = plan(640, 480);
    assert_eq!(chunks.iter().map(|chunk| chunk.length).sum::<u64>(), 640 * 480);
}

#[test]
fn plan_of_an_image_without_pixels_is_one_empty_range() {
    assert_eq!(plan(0, 7), vec![chunk(0, 0)]);
}

#[test]
fn pixels_are_in_row_major_order() {
    assert_eq!(coordinates(0, 3, 2), (0, 0));
    assert_eq!(coordinates(1, 3, 2), (1, 0));
    assert_eq!(coordinates(2, 3, 2), (2, 0));
    assert_eq!(coordinates(3, 3, 2), (0, 1));
    assert_eq!(coordinates(5, 3, 2), (2, 1));
    assert_eq!(coordinates(3, 2, 2), (1, 1));
}

#[test]
fn coordinates_of_a_large_image() {
    let width = u32::MAX;
    let height = u32::MAX;
    let last = width as u64 * height as u64 - 1;
    assert_eq!(coordinates(last, width, height), (width - 1, height - 1));
}

#[test]
fn pieces_are_put_together_in_order() {
    let pieces = vec![Ok(vec![1, 2]), Ok(vec![]), Ok(vec![3]), Ok(vec![4, 5, 6])];
    assert_eq!(assemble(pieces), Ok(vec![1, 2, 3, 4, 5, 6]));
    assert_eq!(assemble(vec![]), Ok(vec![]));
}

#[test]
fn first_error_is_the_one_that_shows() {
    let first = Error { message: "divide by zero", position: 3 };
    let second = Error { message: "undefined variable", position: 1 };
    let pieces = vec![Ok(vec![1, 2]), Err(first), Ok(vec![3]), Err(second)];
    assert_eq!(assemble(pieces), Err(first));
    assert_eq!(assemble(vec![Err(second), Err(first)]), Err(second));
}

#[test]
fn render_does_not_depend_on_the_number_of_workers() {
    for total in [0u64, 1, 4, 17, 100] {
        let whole = work(&chunk(0, total)).unwrap();
        for workers in 1..10u64 {
            let pieces = partition(total, workers).iter().map(work).collect();
            assert_eq!(assemble(pieces), Ok(whole.clone()));
        }
    }
}

#[test]
fn error_does_not_depend_on_the_number_of_workers() {
    let fail_at = |index: u64| Error { message: "divide by zero", position: index as usize + 1 };
    let work = |chunk: &Chunk| -> Result<Vec<u8>, Error> {
        let mut pixels = Vec::new();
        for index in chunk.start..chunk.start + chunk.length {
            if index % 5 == 3 {
                return Err(fail_at(index));
            }
            pixels.push(shade(index));
        }
        Ok(pixels)
    };
    for workers in 1..10u64 {
        let pieces = partition(23, workers).iter().map(work).collect();
        assert_eq!(assemble(pieces), Err(fail_at(3)));
    }
}

#[test]
fn six_names_have_slots() {
    assert_eq!(Slot::from_name(b'w'), Some(Slot::Width));
    assert_eq!(Slot::from_name(b'h'), Some(Slot::Height));
    assert_eq!(Slot::from_name(b'x'), Some(Slot::X));
    assert_eq!(Slot::from_name(b'y'), Some(Slot::Y));
    assert_eq!(Slot::from_name(b'c'), Some(Slot::C));
    assert_eq!(Slot::from_name(b'z'), Some(Slot::Z));
}

#[test]
fn other_names_have_no_slot() {
    for name in 0..=255u8 {
        if !b"whxycz".contains(&name) {
            assert_eq!(Slot::from_name(name), None);
        }
    }
}
