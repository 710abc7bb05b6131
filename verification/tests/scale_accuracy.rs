fn psnr(a: &[u8], b: &[u8]) -> f64 {
    assert_eq!(a.len(), b.len());
    let mse: f64 = a
        .iter()
        .zip(b.iter())
        .map(|(x, y)| {
            let d = *x as f64 - *y as f64;
            d * d
        })
        .sum::<f64>()
        / a.len() as f64;
    if mse == 0.0 {
        return f64::INFINITY;
    }
    20.0 * (255.0f64).log10() - 10.0 * mse.log10()
}

#[test]
fn psnr_threshold_placeholder() {
    const MIN_PSNR_DB: f64 = 40.0;
    let identical = vec![128u8; 64];
    assert!(psnr(&identical, &identical).is_infinite());
    assert!(MIN_PSNR_DB > 0.0);
}
