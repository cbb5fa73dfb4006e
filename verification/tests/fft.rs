use fasterhenry::fft::{padded_size, smooth_size};

#[test]
fn smooth_sizes() {
    assert_eq!(smooth_size(1), 1);
    assert_eq!(smooth_size(7), 8);
    assert_eq!(smooth_size(11), 12);
    assert_eq!(smooth_size(49), 50);
    assert_eq!(padded_size(1), 1);
    assert_eq!(padded_size(4), 8);
}

#[test]
fn smooth_size_of_zero_and_of_smooth_numbers() {
    assert_eq!(smooth_size(0), 1);
    for n in [1, 2, 3, 4, 5, 6, 8, 9, 10, 12, 15, 16, 18, 20, 24, 25, 27, 30, 1024, 3125] {
        assert_eq!(smooth_size(n), n);
    }
    assert_eq!(smooth_size(13), 15);
    assert_eq!(smooth_size(97), 100);
    assert_eq!(smooth_size(1025), 1080);
}
