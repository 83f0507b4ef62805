use textkit::binary32::Binary32;
use textkit::progress::{count_filled, fill_progress_bar, RenderError, BLANK, FILL};

fn frac(x: f32) -> Binary32 {
    Binary32::from_bits(x.to_bits())
}

fn render(cells: usize, delims: &[char], x: f32) -> String {
    let mut buf = vec!['_'; cells];
    assert_eq!(fill_progress_bar(&mut buf, delims, frac(x)), Ok(()));
    String::from_iter(buf)
}

#[test]
fn test_fill_progress_bar() {
    let mut bar = ['_', '_', '_', '_', '_', '_', '_'];
    let mut big_bar = ['_'; 12];

    fill_progress_bar(&mut bar, &['[', ']'], frac(0.2)).unwrap();
    fill_progress_bar(&mut big_bar, &['{', '}'], frac(0.6)).unwrap();

    assert_eq!(String::from_iter(bar), String::from("[=    ]"));
    assert_eq!(String::from_iter(big_bar), String::from("{======    }"));
}

#[test]
fn glyphs_are_equals_sign_and_space() {
    assert_eq!(FILL, '=');
    assert_eq!(BLANK, ' ');
}

#[test]
fn seven_cells_at_one_fifth() {
    assert_eq!(render(7, &['[', ']'], 0.2), "[=    ]");
}

#[test]
fn twelve_cells_at_three_fifths() {
    assert_eq!(render(12, &['{', '}'], 0.6), "{======    }");
}

#[test]
fn two_cells_hold_only_the_delimiters() {
    for x in [0.0f32, 0.25, 0.5, 0.999, 1.0, -3.0, 7.5, f32::NAN, f32::INFINITY] {
        assert_eq!(render(2, &['(', ')'], x), "()");
    }
}

#[test]
fn zero_fraction_leaves_interior_blank() {
    assert_eq!(render(6, &['[', ']'], 0.0), "[    ]");
    assert_eq!(render(6, &['[', ']'], -0.0), "[    ]");
}

#[test]
fn full_fraction_fills_interior() {
    assert_eq!(render(6, &['[', ']'], 1.0), "[====]");
}

#[test]
fn negative_fraction_renders_as_zero() {
    assert_eq!(render(9, &['<', '>'], -0.5), render(9, &['<', '>'], 0.0));
    assert_eq!(render(9, &['<', '>'], -0.5), "<       >");
    assert_eq!(render(9, &['<', '>'], f32::NEG_INFINITY), "<       >");
}

#[test]
fn fraction_above_one_renders_as_one() {
    assert_eq!(render(9, &['<', '>'], 1.5), render(9, &['<', '>'], 1.0));
    assert_eq!(render(9, &['<', '>'], 1.5), "<=======>");
    assert_eq!(render(9, &['<', '>'], f32::MAX), "<=======>");
    assert_eq!(render(9, &['<', '>'], f32::INFINITY), "<=======>");
}

#[test]
fn nan_fraction_fills_nothing() {
    assert_eq!(render(5, &['[', ']'], f32::NAN), "[   ]");
    assert_eq!(count_filled(10, Binary32::from_bits(0xffc0_0001)), 0);
    assert_eq!(count_filled(10, Binary32::from_bits(0x7f80_0001)), 0);
}

#[test]
fn delimiters_stand_at_both_ends() {
    for cells in 2..40usize {
        for x in [0.0f32, 0.1, 0.5, 0.9, 1.0] {
            let mut buf = vec!['_'; cells];
            assert_eq!(fill_progress_bar(&mut buf, &['L', 'R'], frac(x)), Ok(()));
            assert_eq!(buf.len(), cells);
            assert_eq!(buf[0], 'L');
            assert_eq!(buf[cells - 1], 'R');
        }
    }
}

#[test]
fn interior_is_fill_then_blank() {
    let mut buf = vec!['_'; 22];
    assert_eq!(fill_progress_bar(&mut buf, &['[', ']'], frac(0.375)), Ok(()));
    let filled = count_filled(20, frac(0.375));
    assert_eq!(filled, 7);
    for (i, c) in buf.iter().enumerate() {
        if i == 0 {
            assert_eq!(*c, '[');
        } else if i == 21 {
            assert_eq!(*c, ']');
        } else if i <= filled {
            assert_eq!(*c, '=');
        } else {
            assert_eq!(*c, ' ');
        }
    }
}

#[test]
fn extra_delimiters_are_ignored() {
    assert_eq!(render(5, &['a', 'b', 'c', 'd'], 0.5), "a=  b");
}

#[test]
fn buffer_too_small_is_reported_and_nothing_written() {
    let mut empty: [char; 0] = [];
    assert_eq!(
        fill_progress_bar(&mut empty, &['[', ']'], frac(0.5)),
        Err(RenderError::BufferTooSmall)
    );
    let mut one = ['_'];
    assert_eq!(
        fill_progress_bar(&mut one, &['[', ']'], frac(0.5)),
        Err(RenderError::BufferTooSmall)
    );
    assert_eq!(one, ['_']);
}

#[test]
fn insufficient_delimiters_are_reported_and_nothing_written() {
    let mut buf = ['_'; 6];
    assert_eq!(
        fill_progress_bar(&mut buf, &[], frac(0.5)),
        Err(RenderError::InsufficientDelimiters)
    );
    assert_eq!(buf, ['_'; 6]);
    assert_eq!(
        fill_progress_bar(&mut buf, &['['], frac(0.5)),
        Err(RenderError::InsufficientDelimiters)
    );
    assert_eq!(buf, ['_'; 6]);
}

#[test]
fn small_buffer_is_reported_before_missing_delimiters() {
    let mut one = ['_'];
    assert_eq!(
        fill_progress_bar(&mut one, &[], frac(0.5)),
        Err(RenderError::BufferTooSmall)
    );
    assert_eq!(one, ['_']);
}

#[test]
fn rendering_twice_gives_the_same_bar() {
    let mut first = vec!['_'; 15];
    let mut second = vec!['#'; 15];
    assert_eq!(fill_progress_bar(&mut first, &['[', ']'], frac(0.42)), Ok(()));
    assert_eq!(fill_progress_bar(&mut second, &['[', ']'], frac(0.42)), Ok(()));
    assert_eq!(first, second);
    let once = first.clone();
    assert_eq!(fill_progress_bar(&mut first, &['[', ']'], frac(0.42)), Ok(()));
    assert_eq!(first, once);
}

#[test]
fn fill_count_is_floor_of_product() {
    assert_eq!(count_filled(5, frac(0.2)), 1);
    assert_eq!(count_filled(10, frac(0.6)), 6);
    assert_eq!(count_filled(10, frac(0.59)), 5);
    assert_eq!(count_filled(3, frac(0.5)), 1);
    assert_eq!(count_filled(4, frac(0.5)), 2);
    assert_eq!(count_filled(100, frac(0.999)), 99);
    assert_eq!(count_filled(0, frac(0.7)), 0);
    assert_eq!(count_filled(1000, frac(0.001)), 1);
    assert_eq!(count_filled(1000, frac(0.0009)), 0);
}

#[test]
fn fill_count_takes_the_fraction_at_its_exact_value() {
    // The nearest single-precision number to 0.35 lies just below it, so
    // twenty times it lies just below seven.
    assert!((0.35f32 as f64) < 0.35f64);
    assert_eq!(count_filled(20, frac(0.35)), 6);
    // The nearest single-precision number to 0.6 lies just above it.
    assert!((0.6f32 as f64) > 0.6f64);
    assert_eq!(count_filled(20, frac(0.6)), 12);
}

#[test]
fn fill_count_is_exact_below_one() {
    // The largest number below one: 1 - 2^-24.
    let below_one = Binary32::from_bits(0x3f7f_ffff);
    assert_eq!(count_filled(3, below_one), 2);
    assert_eq!(count_filled(1 << 24, below_one), (1 << 24) - 1);
    assert_eq!(count_filled(usize::MAX, below_one), usize::MAX - (usize::MAX >> 24) - 1);
    assert_eq!(count_filled(usize::MAX, frac(1.0)), usize::MAX);
    assert_eq!(count_filled(usize::MAX, frac(0.5)), usize::MAX / 2);
}

#[test]
fn fill_count_of_tiny_fractions_is_zero() {
    // The smallest positive subnormal and the smallest positive normal number.
    assert_eq!(count_filled(usize::MAX, Binary32::from_bits(1)), 0);
    assert_eq!(count_filled(usize::MAX, Binary32::from_bits(0x0080_0000)), 0);
    assert_eq!(count_filled(usize::MAX, frac(f32::MIN_POSITIVE)), 0);
    // 2^-64 times a length below 2^64 stays below one.
    assert_eq!(count_filled(usize::MAX, Binary32::from_bits((127 - 64) << 23)), 0);
}

#[test]
fn fill_count_matches_wide_arithmetic() {
    let mut bits: u32 = 0;
    loop {
        let x = f32::from_bits(bits);
        for interior in [0usize, 1, 2, 5, 10, 77, 1000, 65_537, 1 << 28] {
            let expected = if x.is_nan() || x <= 0.0 {
                0
            } else if x >= 1.0 {
                interior
            } else {
                (interior as f64 * x as f64).floor() as usize
            };
            assert_eq!(count_filled(interior, Binary32::from_bits(bits)), expected);
        }
        match bits.checked_add(104_729) {
            Some(next) => bits = next,
            None => break,
        }
    }
}

#[test]
fn fill_count_does_not_decrease_with_the_fraction() {
    for interior in [1usize, 7, 10, 64, 1000] {
        let mut last = 0;
        let mut bits = 0u32;
        while bits <= 0x3f80_0000 {
            let now = count_filled(interior, Binary32::from_bits(bits));
            assert!(last <= now);
            assert!(now <= interior);
            last = now;
            bits += 4099;
        }
    }
}
