use harris_corner::error::HarrisError;
use harris_corner::harris::box_kernel;
use harris_corner::harris::calculate_harris_matrix;
use harris_corner::harris::calculate_response_matrix;
use harris_corner::harris::gaussian_kernel;
use harris_corner::harris::non_maximal_suppression;
use harris_corner::harris::BOX_DIVISOR;
use harris_corner::harris::GAUSSIAN_DIVISOR;
use harris_corner::harris::SCORE_DIVISOR;
use harris_corner::filter::apply_filter;

fn square_image() -> Vec<u8> {
    let mut image: Vec<u8> = vec![0; 120];
    for y in 3..8 {
        for x in 4..10 {
            image[x + y * 12] = 200;
        }
    }
    image
}

fn patterned_image() -> Vec<u8> {
    let mut image: Vec<u8> = Vec::new();
    for y in 0..6usize {
        for x in 0..7usize {
            image.push(((x * x * 3 + y * y * 5 + x * y * 7) % 256) as u8);
        }
    }
    image
}

#[test]
fn corner_map_of_a_bright_rectangle() {
    let expected: Vec<u8> = vec![
        0, 0, 0, 0, 0, 0, 0, 0, 0, 0, 0, 0,
        0, 0, 0, 0, 0, 0, 0, 0, 0, 0, 0, 0,
        0, 0, 0, 0, 255, 255, 255, 255, 255, 255, 0, 0,
        0, 0, 0, 255, 255, 255, 255, 255, 255, 255, 255, 0,
        0, 0, 0, 255, 255, 255, 255, 255, 255, 255, 255, 0,
        0, 0, 255, 255, 255, 255, 255, 255, 255, 255, 255, 255,
        0, 0, 0, 255, 255, 255, 255, 255, 255, 255, 255, 0,
        0, 0, 0, 255, 255, 255, 255, 255, 255, 255, 255, 0,
        0, 0, 0, 0, 255, 255, 255, 255, 255, 255, 0, 0,
        0, 0, 0, 0, 0, 0, 0, 0, 0, 0, 0, 0,
    ];
    assert_eq!(calculate_harris_matrix(&square_image(), 12, 10), Ok(expected));
}

#[test]
fn corner_map_of_a_patterned_image() {
    let expected: Vec<u8> = vec![
        0, 0, 0, 0, 255, 255, 0,
        0, 0, 0, 0, 255, 255, 255,
        0, 0, 0, 255, 255, 255, 255,
        255, 255, 255, 255, 255, 255, 255,
        255, 255, 255, 255, 255, 255, 255,
        0, 255, 255, 255, 255, 255, 0,
    ];
    assert_eq!(calculate_harris_matrix(&patterned_image(), 7, 6), Ok(expected));
}

#[test]
fn corner_map_holds_only_0_and_255_and_has_the_image_shape() {
    let map = calculate_harris_matrix(&patterned_image(), 7, 6).unwrap();
    assert_eq!(map.len(), 42);
    assert!(map.iter().all(|&v| v == 0 || v == 255));
}

#[test]
fn two_runs_give_the_same_map() {
    let first = calculate_harris_matrix(&square_image(), 12, 10);
    let second = calculate_harris_matrix(&square_image(), 12, 10);
    assert_eq!(first, second);
    let first = calculate_harris_matrix(&patterned_image(), 7, 6);
    let second = calculate_harris_matrix(&patterned_image(), 7, 6);
    assert_eq!(first, second);
}

#[test]
fn single_pixel_image_has_no_corner() {
    assert_eq!(calculate_harris_matrix(&[77], 1, 1), Ok(vec![0]));
}

#[test]
fn flat_image_is_marked_where_the_border_bends_the_smoothing() {
    let expected: Vec<u8> = vec![
        0, 255, 255, 255, 0,
        255, 255, 255, 255, 255,
        255, 255, 255, 255, 255,
        0, 255, 255, 255, 0,
    ];
    assert_eq!(calculate_harris_matrix(&[9; 20], 5, 4), Ok(expected));
}

#[test]
fn zero_width_or_height_is_refused() {
    assert_eq!(calculate_harris_matrix(&[], 0, 0), Err(HarrisError::InvalidDimensions));
    assert_eq!(calculate_harris_matrix(&[], 0, 4), Err(HarrisError::InvalidDimensions));
    assert_eq!(calculate_harris_matrix(&[], 4, 0), Err(HarrisError::InvalidDimensions));
}

#[test]
fn wrong_number_of_samples_is_refused() {
    assert_eq!(calculate_harris_matrix(&[1; 11], 3, 4), Err(HarrisError::InvalidDimensions));
    assert_eq!(calculate_harris_matrix(&[1; 13], 3, 4), Err(HarrisError::InvalidDimensions));
    assert_eq!(
        calculate_harris_matrix(&[1; 4], usize::MAX, 2),
        Err(HarrisError::InvalidDimensions)
    );
}

#[test]
fn smoothing_of_a_bright_rectangle() {
    let scaled = apply_filter(&square_image(), 12, 10, &gaussian_kernel());
    let smoothed: Vec<i128> = scaled.iter().map(|&v| v / GAUSSIAN_DIVISOR as i128).collect();
    let expected: Vec<i128> = vec![
        0, 0, 0, 0, 0, 0, 0, 0, 0, 0, 0, 0,
        0, 0, 0, 3, 8, 11, 12, 12, 11, 8, 3, 0,
        0, 0, 3, 18, 42, 57, 60, 60, 57, 42, 18, 3,
        0, 0, 8, 42, 96, 130, 139, 139, 130, 96, 42, 8,
        0, 0, 11, 57, 130, 175, 187, 187, 175, 130, 57, 11,
        0, 0, 12, 60, 139, 187, 200, 200, 187, 139, 60, 12,
        0, 0, 11, 57, 130, 175, 187, 187, 175, 130, 57, 11,
        0, 0, 8, 42, 96, 130, 139, 139, 130, 96, 42, 8,
        0, 0, 3, 18, 42, 57, 60, 60, 57, 42, 18, 3,
        0, 0, 0, 3, 8, 11, 12, 12, 11, 8, 3, 0,
    ];
    assert_eq!(smoothed, expected);
}

#[test]
fn response_of_a_ramp() {
    let smoothed: Vec<u8> = vec![10, 20, 30, 40, 50, 60, 70, 80, 200];
    assert_eq!(calculate_response_matrix(&smoothed, 3, 3), vec![3560268200000i128; 9]);
}

#[test]
fn response_of_a_small_block() {
    let smoothed: Vec<u8> = vec![
        0, 0, 0, 0,
        0, 9, 9, 0,
        0, 9, 9, 0,
    ];
    let expected: Vec<i128> = vec![
        511469316, 719715456, 719715456, 511469316,
        511469316, 719715456, 719715456, 511469316,
        511469316, 719715456, 719715456, 511469316,
    ];
    assert_eq!(calculate_response_matrix(&smoothed, 4, 3), expected);
}

#[test]
fn response_of_a_flat_image_is_zero() {
    assert_eq!(calculate_response_matrix(&[200; 1], 1, 1), vec![0i128]);
    assert_eq!(calculate_response_matrix(&[], 0, 0), Vec::<i128>::new());
}

#[test]
fn response_is_the_score_of_the_smoothed_tensor() {
    // Smoothed tensor components 4, 2 and 3, each held as 25 times its value:
    // twenty times the determinant plus the squared trace.
    let (xx, xy, yy) = (100i128, 50i128, 75i128);
    let score = 20 * (xx * yy - xy * xy) + (xx + yy) * (xx + yy);
    assert_eq!(score, 12500 * 8 + 625 * 49);
    assert_eq!(score as f64 / SCORE_DIVISOR as f64, (4.0 * 3.0 - 2.0 * 2.0) + 0.05 * 49.0);
}

#[test]
fn threshold_marks_what_exceeds_a_sixth_of_the_maximum() {
    let response: Vec<i128> = vec![6, 1, 2, 7, 0, -3];
    assert_eq!(
        non_maximal_suppression(&response, 3, 2, 300, 32, 32),
        Ok(vec![255, 0, 255, 255, 0, 0])
    );
}

#[test]
fn threshold_is_strict() {
    let response: Vec<i128> = vec![12, 2, 3];
    assert_eq!(non_maximal_suppression(&response, 3, 1, 300, 32, 32), Ok(vec![255, 0, 255]));
}

#[test]
fn threshold_of_responses_that_are_not_positive() {
    let response: Vec<i128> = vec![-5, -1, -3];
    assert_eq!(non_maximal_suppression(&response, 3, 1, 300, 32, 32), Ok(vec![0, 0, 0]));
    let response: Vec<i128> = vec![0, 0];
    assert_eq!(non_maximal_suppression(&response, 2, 1, 300, 32, 32), Ok(vec![0, 0]));
    let response: Vec<i128> = vec![i128::MIN, i128::MIN + 1];
    assert_eq!(non_maximal_suppression(&response, 2, 1, 300, 32, 32), Ok(vec![0, 0]));
}

#[test]
fn threshold_of_extreme_responses() {
    let response: Vec<i128> = vec![i128::MAX, i128::MAX / 6, i128::MAX / 6 + 1, i128::MIN];
    assert_eq!(
        non_maximal_suppression(&response, 2, 2, 300, 32, 32),
        Ok(vec![255, 0, 255, 0])
    );
}

#[test]
fn threshold_ignores_dimensions_and_grid_parameters() {
    let response: Vec<i128> = vec![6, 1, 2, 7, 0, -3];
    let expected = non_maximal_suppression(&response, 3, 2, 300, 32, 32);
    assert_eq!(non_maximal_suppression(&response, 0, 0, 0, 0, 0), expected);
    assert_eq!(non_maximal_suppression(&response, 6, 1, 1, 2, 3), expected);
    assert_eq!(non_maximal_suppression(&response, 100, 100, 5, 1, 1), expected);
}

#[test]
fn threshold_of_an_empty_response_is_refused() {
    assert_eq!(
        non_maximal_suppression(&[], 0, 0, 300, 32, 32),
        Err(HarrisError::EmptyResponse)
    );
}

#[test]
fn threshold_of_its_own_output_is_the_same_map() {
    for response in [
        vec![6i128, 1, 2, 7, 0, -3],
        vec![-5, -1, -3],
        vec![0, 0],
        vec![3],
        vec![12, 2, 3, 100, 17, 16],
    ] {
        let map = non_maximal_suppression(&response, 1, 1, 300, 32, 32).unwrap();
        let again: Vec<i128> = map.iter().map(|&v| v as i128).collect();
        assert_eq!(non_maximal_suppression(&again, 1, 1, 300, 32, 32), Ok(map));
    }
}

#[test]
fn pipeline_kernels() {
    assert_eq!(GAUSSIAN_DIVISOR, 273);
    assert_eq!(BOX_DIVISOR, 25);
    let dot: Vec<u8> = {
        let mut image = vec![0; 25];
        image[12] = 1;
        image
    };
    // The response to a single bright sample is the kernel turned about its centre.
    assert_eq!(
        apply_filter(&dot, 5, 5, &gaussian_kernel()),
        vec![
            1i128, 4, 7, 4, 1,
            4, 16, 26, 16, 4,
            7, 26, 41, 26, 7,
            4, 16, 26, 16, 4,
            1, 4, 7, 4, 1,
        ]
    );
    assert_eq!(apply_filter(&dot, 5, 5, &box_kernel()), vec![1i128; 25]);
    assert_eq!(box_kernel().divisor(), 25);
}

#[test]
fn each_error_names_its_stage() {
    assert!(HarrisError::InvalidDimensions.message().starts_with("corner detection:"));
    assert!(HarrisError::InvalidKernel.message().starts_with("convolution:"));
    assert_eq!(HarrisError::EmptyResponse.message(), "thresholding: the response grid is empty");
}
