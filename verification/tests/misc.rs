use fasterhenry::inp::lines::words_of;
use fasterhenry::cli::version;
use fasterhenry::inductance::{KernelError, Method};
use fasterhenry::result::Counts;
use fasterhenry::{filament_counts, shared_subdivision, FilamentCountError, Subdivision};

#[test]
fn kernel_errors_are_attributed_to_a_batch_entry() {
    let coincident = KernelError::CoincidentSamples { first: 0, second: 0 };
    assert_eq!(
        coincident.at(3, 4),
        KernelError::CoincidentSamples { first: 3, second: 4 }
    );
    let not_finite = KernelError::NotFinite { first: 1, second: 1 };
    assert_eq!(not_finite.at(0, 9), KernelError::NotFinite { first: 0, second: 9 });
}

#[test]
fn version_names_the_revision_or_unknown() {
    assert_eq!(version("1.2.3", Some("v1.2.3-4-gabc")), "1.2.3 (git: v1.2.3-4-gabc)");
    assert_eq!(version("0.1.0", None), "0.1.0 (git: unknown)");
}

#[test]
fn a_shared_subdivision_is_uniform() {
    let a = Subdivision::new(3, 2);
    assert_eq!(shared_subdivision(&[a, a, a]), Some(a));
    assert_eq!(shared_subdivision(&[a]), Some(a));
    assert_eq!(shared_subdivision(&[a, Subdivision::new(2, 3)]), None);
}

#[test]
fn counts_and_methods_are_plain_values() {
    let counts = Counts {
        nodes: 7,
        segments: 6,
        filaments: 15,
        meshes: 12,
        internal_meshes: 10,
        ports: 2,
    };
    let copy = counts;
    assert_eq!(copy, counts);
    assert_ne!(Method::Orthogonal, Method::PointQuadrature);
}

#[test]
fn filament_counts_multiply_each_grid_and_sum_them() {
    let subs = [Subdivision::new(3, 2), Subdivision::new(1, 1), Subdivision::new(4, 5)];
    assert_eq!(filament_counts(&subs), Ok((vec![6, 1, 20], 27)));
    assert_eq!(filament_counts(&[]), Ok((vec![], 0)));
}

#[test]
fn filament_counts_report_the_first_overflow() {
    let big = usize::MAX / 2 + 1;
    let subs = [Subdivision::new(1, 1), Subdivision::new(big, 2), Subdivision::new(usize::MAX, 2)];
    assert_eq!(filament_counts(&subs), Err(FilamentCountError::Grid { segment: 1 }));
    let subs = [Subdivision::new(big, 1), Subdivision::new(big, 1)];
    assert_eq!(filament_counts(&subs), Err(FilamentCountError::Total { segment: 1 }));
}

#[test]
fn words_split_exactly_at_unicode_white_space() {
    for code in 0..=0x10FFFFu32 {
        if let Some(c) = char::from_u32(code) {
            let words = words_of(&['a', c, 'b']);
            let expected = if c.is_whitespace() { 2 } else { 1 };
            assert_eq!(words.len(), expected, "U+{code:04X}");
        }
    }
}
