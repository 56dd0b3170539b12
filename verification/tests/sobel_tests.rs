use harris_corner::sobel::Kernel;
use harris_corner::sobel::KernelDir;
use harris_corner::sobel::Sobel;

fn reals(values: Vec<i128>) -> Vec<f64> {
    values.into_iter().map(|x| x as f64).collect()
}

fn block() -> Vec<u8> {
    vec![
        0, 0, 0, 0, 0, 0, 0,
        0, 0, 0, 0, 0, 0, 0,
        0, 0, 1, 1, 1, 0, 0,
        0, 0, 1, 1, 1, 0, 0,
        0, 0, 1, 1, 1, 0, 0,
        0, 0, 0, 0, 0, 0, 0,
        0, 0, 0, 0, 0, 0, 0,
    ]
}

#[test]
fn test_sobel_x_3() {
    let mat: Vec<u8> = vec![
        0, 0, 0, 0, 0, 0, 0,
        0, 0, 0, 0, 0, 0, 0,
        0, 0, 1, 1, 1, 0, 0,
        0, 0, 1, 1, 1, 0, 0,
        0, 0, 1, 1, 1, 0, 0,
        0, 0, 0, 0, 0, 0, 0,
        0, 0, 0, 0, 0, 0, 0,
    ];
    let w = 7;
    let h = 7;
    let expected: Vec<f64> = vec![
        0., 0., 0., 0., 0., 0., 0.,
        0., 1., 1., 0., -1., -1., 0.,
        0., 3., 3., 0., -3., -3., 0.,
        0., 4., 4., 0., -4., -4., 0.,
        0., 3., 3., 0., -3., -3., 0.,
        0., 1., 1., 0., -1., -1., 0.,
        0., 0., 0., 0., 0., 0., 0.,
    ];

    let response = reals(Sobel::new().kernel(Kernel::X3).apply(&mat, w, h, KernelDir::X));
    println!("{:?}", response);
    assert_eq!(response, expected);
}

#[test]
fn test_sobel_xx_3() {
    let w = 7;
    let h = 7;
    let mat: Vec<u8> = vec![
        0, 0, 0, 0, 0, 0, 0,
        0, 0, 0, 0, 0, 0, 0,
        0, 0, 1, 1, 1, 0, 0,
        0, 0, 1, 1, 1, 0, 0,
        0, 0, 1, 1, 1, 0, 0,
        0, 0, 0, 0, 0, 0, 0,
        0, 0, 0, 0, 0, 0, 0,
    ];
    let expected = vec![
        0., 0., 0., 0., 0., 0., 0.0,
        0., 1., 1., 0., 1., 1., 0.0,
        0., 9., 9., 0., 9., 9., 0.0,
        0., 16., 16., 0., 16., 16., 0.0,
        0., 9., 9., 0., 9., 9., 0.0,
        0., 1., 1., 0., 1., 1., 0.0,
        0., 0., 0., 0., 0., 0., 0.0,
    ];

    let response = reals(Sobel::new().kernel(Kernel::X3).apply(&mat, w, h, KernelDir::XX));
    println!("{:?}", response);
    assert_eq!(response, expected);
}

#[test]
fn test_sobel_y_3() {
    let mat: Vec<u8> = vec![
        0, 0, 0, 0, 0, 0, 0,
        0, 0, 0, 0, 0, 0, 0,
        0, 0, 1, 1, 1, 0, 0,
        0, 0, 1, 1, 1, 0, 0,
        0, 0, 1, 1, 1, 0, 0,
        0, 0, 0, 0, 0, 0, 0,
        0, 0, 0, 0, 0, 0, 0,
    ];
    let w = 7;
    let h = 7;
    let expected: Vec<f64> = vec![
        0., 0., 0., 0., 0., 0., 0.,
        0., 1., 3., 4., 3., 1., 0.,
        0., 1., 3., 4., 3., 1., 0.,
        0., 0., 0., 0., 0., 0., 0.,
        0., -1., -3., -4., -3., -1., 0.,
        0., -1., -3., -4., -3., -1., 0.,
        0., 0., 0., 0., 0., 0., 0.,
    ];

    let response = reals(Sobel::new().kernel(Kernel::X3).apply(&mat, w, h, KernelDir::Y));
    println!("{:?}", response);
    assert_eq!(response, expected);
}

#[test]
fn test_sobel_xy_3() {
    let w = 7;
    let h = 7;
    let mat: Vec<u8> = vec![
        0, 0, 0, 0, 0, 0, 0,
        0, 0, 0, 0, 0, 0, 0,
        0, 0, 1, 1, 1, 0, 0,
        0, 0, 1, 1, 1, 0, 0,
        0, 0, 1, 1, 1, 0, 0,
        0, 0, 0, 0, 0, 0, 0,
        0, 0, 0, 0, 0, 0, 0,
    ];
    let expected = vec![
        0., 0., 0., 0., 0., 0., 0.,
        0., 1., 3., 0., -3., -1., 0.,
        0., 3., 9., 0., -9., -3., 0.,
        0., 0., 0., 0., -0., -0., 0.,
        0., -3., -9., -0., 9., 3., 0.,
        0., -1., -3., -0., 3., 1., 0.,
        0., 0., 0., 0., 0., 0., 0.,
    ];

    let response = reals(Sobel::new().kernel(Kernel::X3).apply(&mat, w, h, KernelDir::XY));
    println!("{:?}", response);
    assert_eq!(response, expected);
}

#[test]
fn sobel_yy_3_squares_the_y_derivative() {
    let expected: Vec<i128> = vec![
        0, 0, 0, 0, 0, 0, 0,
        0, 1, 9, 16, 9, 1, 0,
        0, 1, 9, 16, 9, 1, 0,
        0, 0, 0, 0, 0, 0, 0,
        0, 1, 9, 16, 9, 1, 0,
        0, 1, 9, 16, 9, 1, 0,
        0, 0, 0, 0, 0, 0, 0,
    ];
    assert_eq!(Sobel::new().apply(&block(), 7, 7, KernelDir::YY), expected);
}

#[test]
fn x_response_is_antisymmetric_about_the_centre_column() {
    let response = Sobel::new().kernel(Kernel::X3).apply(&block(), 7, 7, KernelDir::X);
    for y in 0..7 {
        for x in 0..7 {
            assert_eq!(response[x + y * 7], -response[(6 - x) + y * 7]);
        }
    }
}

#[test]
fn squared_directions_are_never_negative() {
    let image: Vec<i32> = (0..63).map(|i| (i * 7919 % 511) - 255).collect();
    for kernel in [Kernel::X3, Kernel::X5] {
        for dir in [KernelDir::XX, KernelDir::YY] {
            let response = Sobel::new().kernel(kernel).apply(&image, 9, 7, dir);
            assert_eq!(response.len(), 63);
            assert!(response.iter().all(|&v| v >= 0));
        }
    }
}

#[test]
fn product_is_the_product_of_the_two_derivatives() {
    let image: Vec<i32> = (0..63).map(|i| (i * 7919 % 511) - 255).collect();
    for kernel in [Kernel::X3, Kernel::X5] {
        let sobel = Sobel::new().kernel(kernel);
        let x = sobel.apply(&image, 9, 7, KernelDir::X);
        let y = sobel.apply(&image, 9, 7, KernelDir::Y);
        let xx = sobel.apply(&image, 9, 7, KernelDir::XX);
        let yy = sobel.apply(&image, 9, 7, KernelDir::YY);
        let xy = sobel.apply(&image, 9, 7, KernelDir::XY);
        for i in 0..63 {
            assert_eq!(xx[i], x[i] * x[i]);
            assert_eq!(yy[i], y[i] * y[i]);
            assert_eq!(xy[i], x[i] * y[i]);
        }
    }
}

#[test]
fn sobel_5_on_a_small_image() {
    let image: Vec<u8> = vec![
        0, 7, 3, 10, 6, 2,
        2, 9, 5, 1, 8, 4,
        4, 0, 7, 3, 10, 6,
        6, 2, 9, 5, 1, 8,
        8, 4, 0, 7, 3, 10,
        10, 6, 2, 9, 5, 1,
    ];
    let sobel = Sobel::new().kernel(Kernel::X5);
    let x: Vec<i128> = vec![
        -59, -60, -49, 6, 46, 78,
        -85, -55, -31, 2, 54, 73,
        -84, -65, -35, -35, 55, 96,
        -87, -56, 9, -24, 57, 88,
        -52, -44, 13, -42, 32, 84,
        -44, -39, 28, -5, 36, 74,
    ];
    let xy: Vec<i128> = vec![
        2832, 3240, 4508, -516, -4508, -5226,
        4335, 1925, 2046, -102, -3078, -3577,
        2100, -650, -420, -420, 550, -2400,
        2175, 1288, 9, 240, 1197, -264,
        -1300, -836, 780, -2352, 2368, 4704,
        -2904, -2769, 2408, -455, 2556, 5476,
    ];
    assert_eq!(sobel.apply(&image, 6, 6, KernelDir::X), x);
    assert_eq!(sobel.apply(&image, 6, 6, KernelDir::XY), xy);
}

#[test]
fn extreme_samples_do_not_overflow() {
    let image: Vec<i32> = vec![i32::MIN, i32::MAX, i32::MIN, i32::MAX, i32::MIN, i32::MAX];
    let response = Sobel::new().kernel(Kernel::X5).apply(&image, 6, 1, KernelDir::XX);
    assert_eq!(response.len(), 6);
    let min = i32::MIN as i128;
    let max = i32::MAX as i128;
    let at_two = 4 * min + 2 * max - 2 * max - 4 * min;
    assert_eq!(response[2], at_two * at_two);
    let at_zero = -2 * max - 4 * min;
    assert_eq!(response[0], at_zero * at_zero);
}

#[test]
fn kernel_tables() {
    assert_eq!(Kernel::X3.size(), 3);
    assert_eq!(Kernel::X5.size(), 5);
    assert_eq!(Kernel::X3.x(), vec![-1, 0, 1, -2, 0, 2, -1, 0, 1]);
    assert_eq!(Kernel::X3.y(), vec![-1, -2, -1, 0, 0, 0, 1, 2, 1]);
    assert_eq!(
        Kernel::X5.x(),
        vec![2, 1, 0, -1, -2, 2, 1, 0, -1, -2, 4, 2, 0, -2, -4, 2, 1, 0, -1, -2, 2, 1, 0, -1, -2]
    );
    assert_eq!(
        Kernel::X5.y(),
        vec![2, 2, 4, 2, 2, 1, 1, 2, 1, 1, 0, 0, 0, 0, 0, -1, -1, -2, -1, -1, -2, -2, -4, -2, -2]
    );
}

#[test]
fn default_operator_uses_the_small_kernels() {
    let by_default = Sobel::default().apply(&block(), 7, 7, KernelDir::X);
    let small = Sobel::new().kernel(Kernel::X3).apply(&block(), 7, 7, KernelDir::X);
    let large = Sobel::new().kernel(Kernel::X5).apply(&block(), 7, 7, KernelDir::X);
    assert_eq!(by_default, small);
    assert_ne!(by_default, large);
}

#[test]
fn later_kernel_choice_replaces_the_earlier() {
    let chosen = Sobel::new().kernel(Kernel::X5).kernel(Kernel::X3);
    assert_eq!(
        chosen.apply(&block(), 7, 7, KernelDir::Y),
        Sobel::new().apply(&block(), 7, 7, KernelDir::Y)
    );
}
