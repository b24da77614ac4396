use candle_core::{DType, Device, Tensor};
use remote_layers::ops::{
    broadcast_as, cat, contiguous, dims3, dims4, exp, larger, log, mean_keep, minus, narrow, ones_like, over,
    plus, plus_stretched, reshape, root, shape, sigmoid, silu, square, sum_along, sum_keep,
    swap_dims, times, to_dtype, to_dtype_of, unsqueeze, zeros, TensorError,
};

fn t(v: &[f32], dims: &[usize]) -> Tensor {
    Tensor::from_vec(v.to_vec(), dims, &Device::Cpu).unwrap()
}

fn vals(x: &Tensor) -> Vec<f32> {
    x.flatten_all().unwrap().to_vec1::<f32>().unwrap()
}

fn near(a: &[f32], b: &[f32]) -> bool {
    a.len() == b.len() && a.iter().zip(b).all(|(x, y)| (x - y).abs() < 1e-5)
}

fn cube() -> Tensor {
    t(&(0..24).map(|x| x as f32).collect::<Vec<f32>>(), &[2, 3, 4])
}

/// A tensor of more elements than memory can hold, made of one.
fn endless() -> Tensor {
    t(&[1.0], &[1])
        .broadcast_as((1usize << 31, 1usize << 31))
        .unwrap()
}

#[test]
fn narrowing_takes_a_part() {
    let a = narrow(&cube(), 1, 1, 2).unwrap();
    assert_eq!(a.dims(), &[2, 2, 4]);
    assert_eq!(
        vals(&a),
        vec![
            4.0, 5.0, 6.0, 7.0, 8.0, 9.0, 10.0, 11.0, 16.0, 17.0, 18.0, 19.0, 20.0, 21.0, 22.0, 23.0
        ]
    );
    assert!(matches!(narrow(&cube(), 1, 2, 2), Err(TensorError::Candle(_))));
    assert!(matches!(narrow(&cube(), 3, 0, 1), Err(TensorError::Candle(_))));
    assert_eq!(narrow(&cube(), 1, 3, 0).unwrap().dims(), &[2, 0, 4]);
}

#[test]
fn reshaping_keeps_the_order() {
    let a = reshape(&cube(), &[4, 6]).unwrap();
    assert_eq!(a.dims(), &[4, 6]);
    assert_eq!(vals(&a), vals(&cube()));
    assert!(matches!(reshape(&cube(), &[5, 5]), Err(TensorError::Candle(_))));
    assert!(matches!(reshape(&endless(), &[1]), Err(TensorError::TooLarge)));
    assert!(matches!(
        reshape(&cube(), &[usize::MAX, usize::MAX, 0]),
        Err(TensorError::TooLarge)
    ));
}

#[test]
fn reshaping_a_turned_tensor_follows_its_order() {
    let a = reshape(&t(&[1.0, 2.0, 3.0, 4.0], &[2, 2]).t().unwrap(), &[4]).unwrap();
    assert_eq!(vals(&a), vec![1.0, 3.0, 2.0, 4.0]);
}

#[test]
fn unsqueezing_adds_a_dimension() {
    assert_eq!(unsqueeze(&cube(), 0).unwrap().dims(), &[1, 2, 3, 4]);
    assert_eq!(unsqueeze(&cube(), 3).unwrap().dims(), &[2, 3, 4, 1]);
    assert!(matches!(unsqueeze(&cube(), 4), Err(TensorError::Candle(_))));
}

#[test]
fn swapping_exchanges_neighbours() {
    let a = swap_dims(&t(&[1.0, 2.0, 3.0, 4.0, 5.0, 6.0], &[1, 2, 3]), 1).unwrap();
    assert_eq!(a.dims(), &[1, 3, 2]);
    assert_eq!(vals(&a), vec![1.0, 4.0, 2.0, 5.0, 3.0, 6.0]);
    assert!(matches!(swap_dims(&cube(), 2), Err(TensorError::Candle(_))));
}

#[test]
fn stretching_repeats() {
    let a = broadcast_as(&t(&[1.0, 2.0], &[2, 1]), &[2, 3]).unwrap();
    assert_eq!(vals(&a), vec![1.0, 1.0, 1.0, 2.0, 2.0, 2.0]);
    assert!(matches!(
        broadcast_as(&t(&[1.0, 2.0], &[2]), &[3]),
        Err(TensorError::Candle(_))
    ));
}

#[test]
fn joining_puts_side_by_side() {
    let a = t(&[1.0, 2.0, 3.0, 4.0], &[2, 2]);
    let b = t(&[5.0, 6.0], &[2, 1]);
    let c = cat(&vec![a.clone(), b.clone()], 1).unwrap();
    assert_eq!(c.dims(), &[2, 3]);
    assert_eq!(vals(&c), vec![1.0, 2.0, 5.0, 3.0, 4.0, 6.0]);
    assert!(matches!(cat(&vec![a.clone(), b], 0), Err(TensorError::Candle(_))));
    assert!(matches!(cat(&vec![], 0), Err(TensorError::UnknownSize)));
    assert_eq!(vals(&cat(&vec![a.clone()], 0).unwrap()), vals(&a));
    let empty = narrow(&a, 0, 1, 0).unwrap();
    let d = cat(&vec![empty, a.clone()], 0).unwrap();
    assert_eq!(d.dims(), &[2, 2]);
    assert_eq!(vals(&d), vals(&a));
    assert!(matches!(cat(&vec![endless()], 0), Err(TensorError::TooLarge)));
}

#[test]
fn zeros_and_ones_fill() {
    let z = zeros(&[2, 2], &cube()).unwrap();
    assert_eq!(vals(&z), vec![0.0; 4]);
    let o = ones_like(&cube()).unwrap();
    assert_eq!(o.dims(), &[2, 3, 4]);
    assert_eq!(vals(&o), vec![1.0; 24]);
    assert!(matches!(zeros(&[usize::MAX, 2], &cube()), Err(TensorError::TooLarge)));
    assert!(matches!(ones_like(&endless()), Err(TensorError::TooLarge)));
}

#[test]
fn elementwise_operations_stretch() {
    let a = t(&[1.0, 2.0, 3.0, 4.0], &[2, 2]);
    let b = t(&[10.0, 100.0], &[1, 2]);
    assert_eq!(vals(&times(&a, &b).unwrap()), vec![10.0, 200.0, 30.0, 400.0]);
    assert_eq!(
        vals(&plus_stretched(&a, &b).unwrap()),
        vec![11.0, 102.0, 13.0, 104.0]
    );
    assert_eq!(vals(&larger(&a, &t(&[2.5], &[1])).unwrap()), vec![2.5, 2.5, 3.0, 4.0]);
    assert_eq!(vals(&over(&b, &a).unwrap()), vec![10.0, 50.0, 10.0 / 3.0, 25.0]);
    let c = t(&[1.0, 2.0, 3.0], &[3]);
    assert!(matches!(times(&a, &c), Err(TensorError::Candle(_))));
    assert!(matches!(plus_stretched(&a, &c), Err(TensorError::Candle(_))));
    assert!(matches!(times(&endless(), &a), Err(TensorError::TooLarge)));
    assert!(matches!(larger(&a, &endless()), Err(TensorError::TooLarge)));
    assert!(matches!(over(&a, &c), Err(TensorError::Candle(_))));
}

#[test]
fn sums_and_differences_need_one_shape() {
    let a = t(&[1.0, 2.0], &[2]);
    let b = t(&[0.5, 5.0], &[2]);
    assert_eq!(vals(&plus(&a, &b).unwrap()), vec![1.5, 7.0]);
    assert_eq!(vals(&minus(&a, &b).unwrap()), vec![0.5, -3.0]);
    let c = t(&[1.0, 1.0], &[1, 2]);
    assert!(matches!(plus(&a, &c), Err(TensorError::Candle(_))));
    assert!(matches!(minus(&a, &c), Err(TensorError::Candle(_))));
    assert!(matches!(plus(&endless(), &endless()), Err(TensorError::TooLarge)));
    assert!(matches!(minus(&endless(), &endless()), Err(TensorError::TooLarge)));
}

#[test]
fn functions_go_element_by_element() {
    let x = t(&[0.0, 1.0, -2.0], &[3]);
    assert!(near(&vals(&exp(&x).unwrap()), &[1.0, 2.718_281_8, 0.135_335_28]));
    assert!(near(
        &vals(&log(&t(&[1.0, 2.718_281_8], &[2])).unwrap()),
        &[0.0, 1.0]
    ));
    assert!(near(
        &vals(&silu(&x).unwrap()),
        &[0.0, 0.731_058_6, -0.238_405_84]
    ));
    assert!(near(
        &vals(&sigmoid(&x).unwrap()),
        &[0.5, 0.731_058_6, 0.119_202_92]
    ));
    assert_eq!(vals(&square(&x).unwrap()), vec![0.0, 1.0, 4.0]);
    assert_eq!(vals(&root(&t(&[4.0, 9.0], &[2])).unwrap()), vec![2.0, 3.0]);
    assert!(matches!(exp(&endless()), Err(TensorError::TooLarge)));
    assert!(matches!(log(&endless()), Err(TensorError::TooLarge)));
    assert!(matches!(silu(&endless()), Err(TensorError::TooLarge)));
    assert!(matches!(sigmoid(&endless()), Err(TensorError::TooLarge)));
}

#[test]
fn reductions_go_along_a_dimension() {
    let x = t(&[1.0, 2.0, 3.0, 4.0, 5.0, 6.0], &[2, 3]);
    let a = sum_along(&x, 0).unwrap();
    assert_eq!(a.dims(), &[3]);
    assert_eq!(vals(&a), vec![5.0, 7.0, 9.0]);
    let b = sum_keep(&x, 1).unwrap();
    assert_eq!(b.dims(), &[2, 1]);
    assert_eq!(vals(&b), vec![6.0, 15.0]);
    let c = mean_keep(&x, 1).unwrap();
    assert_eq!(c.dims(), &[2, 1]);
    assert_eq!(vals(&c), vec![2.0, 5.0]);
    assert!(matches!(sum_along(&x, 2), Err(TensorError::Candle(_))));
    assert!(matches!(sum_keep(&x, 2), Err(TensorError::Candle(_))));
    assert!(matches!(mean_keep(&x, 2), Err(TensorError::Candle(_))));
    let empty = narrow(&x, 0, 0, 0).unwrap();
    assert_eq!(vals(&sum_along(&empty, 0).unwrap()), vec![0.0, 0.0, 0.0]);
}

#[test]
fn casting_follows_the_model() {
    let x = t(&[1.0, 2.5], &[2]);
    assert_eq!(vals(&to_dtype_of(&x, &cube()).unwrap()), vec![1.0, 2.5]);
    let half = cube().to_dtype(DType::F16).unwrap();
    assert_eq!(to_dtype_of(&x, &half).unwrap().dtype(), DType::F16);
}

#[test]
fn dimensions_are_told() {
    assert_eq!(shape(&cube()).unwrap(), vec![2, 3, 4]);
    assert_eq!(dims3(&cube()).unwrap(), (2, 3, 4));
    assert_eq!(dims4(&unsqueeze(&cube(), 0).unwrap()).unwrap(), (1, 2, 3, 4));
    assert!(matches!(
        dims4(&cube()),
        Err(TensorError::WrongRank { expected: 4, got: 3 })
    ));
    assert!(matches!(
        dims3(&t(&[1.0], &[1])),
        Err(TensorError::WrongRank { expected: 3, got: 1 })
    ));
    assert!(matches!(shape(&endless()), Err(TensorError::TooLarge)));
}

/// A tensor of nothing, which begins behind the end of what holds it.
fn beyond() -> Tensor {
    t(&[1.0; 6], &[2, 3]).narrow(0, 2, 0).unwrap().narrow(1, 3, 0).unwrap()
}

#[test]
fn empty_tensors_may_lie_anywhere() {
    assert_eq!(beyond().dims(), &[0, 0]);
    assert_eq!(reshape(&beyond(), &[0, 7]).unwrap().dims(), &[0, 7]);
    assert_eq!(cat(&vec![beyond(), beyond()], 0).unwrap().dims(), &[0, 0]);
    assert_eq!(cat(&vec![beyond()], 0).unwrap().dims(), &[0, 0]);
    assert_eq!(sigmoid(&beyond()).unwrap().dims(), &[0, 0]);
    assert_eq!(vals(&sum_along(&t(&[1.0], &[1]).narrow(0, 1, 0).unwrap(), 0).unwrap()), vec![0.0]);
    assert_eq!(sum_along(&beyond(), 0).unwrap().dims(), &[0]);
    assert_eq!(sum_keep(&beyond(), 0).unwrap().dims(), &[1, 0]);
    assert_eq!(mean_keep(&beyond(), 1).unwrap().dims(), &[0, 1]);
    assert_eq!(to_dtype(&beyond(), DType::F64).unwrap().dtype(), DType::F64);
    assert_eq!(contiguous(&beyond()).unwrap().dims(), &[0, 0]);
    assert_eq!(exp(&beyond()).unwrap().dims(), &[0, 0]);
    assert_eq!(times(&beyond(), &beyond()).unwrap().dims(), &[0, 0]);
}

#[test]
fn element_types_are_exchanged() {
    let x = t(&[1.5, -2.25], &[2]);
    let y = to_dtype(&x, DType::F64).unwrap();
    assert_eq!(y.dtype(), DType::F64);
    assert_eq!(y.to_vec1::<f64>().unwrap(), vec![1.5, -2.25]);
    let z = to_dtype_of(&y, &x).unwrap();
    assert_eq!(z.dtype(), DType::F32);
    assert_eq!(vals(&z), vals(&x));
    let u = to_dtype(&t(&[3.7], &[1]), DType::U32).unwrap();
    assert_eq!(u.to_vec1::<u32>().unwrap(), vec![3]);
}

#[test]
fn contiguous_elements_are_in_order() {
    let x = t(&[1.0, 2.0, 3.0, 4.0], &[2, 2]).t().unwrap();
    assert!(!x.is_contiguous());
    let y = contiguous(&x).unwrap();
    assert!(y.is_contiguous());
    assert_eq!(vals(&y), vec![1.0, 3.0, 2.0, 4.0]);
}

#[test]
fn arithmetic_is_for_floats() {
    let ints = [
        Tensor::from_vec(vec![0u8, 255], 2, &Device::Cpu).unwrap(),
        Tensor::from_vec(vec![0u32, u32::MAX], 2, &Device::Cpu).unwrap(),
        Tensor::from_vec(vec![i64::MIN, -1], 2, &Device::Cpu).unwrap(),
    ];
    for x in &ints {
        for r in [exp(x), log(x), square(x), root(x)] {
            assert!(matches!(r, Err(TensorError::NotFloat)));
        }
        for r in [sum_along(x, 0), sum_keep(x, 0), mean_keep(x, 0)] {
            assert!(matches!(r, Err(TensorError::NotFloat)));
        }
        for r in [times(x, x), plus_stretched(x, x), plus(x, x), minus(x, x), over(x, x)] {
            assert!(matches!(r, Err(TensorError::NotFloat)));
        }
        let f = t(&[1.0, 2.0], &[2]);
        assert!(matches!(times(&f, x), Err(TensorError::NotFloat)));
        assert!(matches!(over(&f, x), Err(TensorError::NotFloat)));
    }
    for dtype in [DType::F16, DType::BF16, DType::F64] {
        let x = to_dtype(&t(&[1.0, 4.0], &[2]), dtype).unwrap();
        assert_eq!(vals(&to_dtype(&root(&x).unwrap(), DType::F32).unwrap()), vec![1.0, 2.0]);
        assert_eq!(vals(&to_dtype(&plus(&x, &x).unwrap(), DType::F32).unwrap()), vec![2.0, 8.0]);
    }
}
