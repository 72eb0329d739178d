use cachereaper_core::human;
use cachereaper_core::size::double_of;
use cachereaper_core::text::{
    decimal_of, is_blank, lines_of, trim, unsigned_of, words_of,
};

/// The same figure by way of floating point.
fn reference(bytes: u64) -> String {
    let mut value = bytes as f64;
    for (i, unit) in ["B", "K", "M", "G", "T"].iter().enumerate() {
        if value.abs() < 1024.0 || i == 4 {
            return if *unit == "B" { format!("{value:.0}B") } else { format!("{value:.1}{unit}") };
        }
        value /= 1024.0;
    }
    unreachable!()
}

#[test]
fn human_matches_the_cli_format() {
    assert_eq!(human(0), "0B");
    assert_eq!(human(512), "512B");
    assert_eq!(human(1536), "1.5K");
    assert_eq!(human(5 * 1024 * 1024 * 1024), "5.0G");
}

#[test]
fn human_rounds_as_floating_point_does() {
    let mut bytes: u64 = 1;
    for step in 0..4000u64 {
        assert_eq!(human(bytes), reference(bytes), "{bytes}");
        bytes = bytes.wrapping_mul(6364136223846793005).wrapping_add(1442695040888963407 + step);
        let shorter = bytes >> (step % 64);
        assert_eq!(human(shorter), reference(shorter), "{shorter}");
    }
    for edge in [1023, 1024, 1_048_575, 1_048_576, 1_073_741_823, u64::MAX, 1_152, 1_331, 1_280] {
        assert_eq!(human(edge), reference(edge), "{edge}");
    }
}

#[test]
fn doubles_hold_fifty_three_bits() {
    for n in [0u64, 1, 9_007_199_254_740_993, 9_007_199_254_740_995, u64::MAX, 1 << 60, (1 << 60) + 1] {
        assert_eq!(double_of(n as u128), n as f64 as u128, "{n}");
    }
}

#[test]
fn text_is_cut_as_the_standard_library_cuts_it() {
    for text in ["", "a", "a\n", "a\nb", "a\r\nb\r\n", "a\rb\n\n", "\n", "a\r"] {
        let expected: Vec<&str> = text.lines().collect();
        assert_eq!(lines_of(text), expected, "{text:?}");
    }
    for text in ["", "  ", " a  b\tc\n", "x", "\u{a0}y\u{2003}z"] {
        let expected: Vec<&str> = text.split_whitespace().collect();
        assert_eq!(words_of(text), expected, "{text:?}");
        assert_eq!(trim(text), text.trim());
        assert_eq!(is_blank(text), text.trim().is_empty());
    }
}

#[test]
fn numbers_are_read_and_written_in_decimal() {
    for text in ["0", "7", "+7", "", "+", "-1", "007", "18446744073709551615", "18446744073709551616", "1a"] {
        assert_eq!(unsigned_of(text), text.parse::<u64>().ok(), "{text:?}");
    }
    for n in [0u128, 9, 10, 1_000_000, u128::MAX] {
        assert_eq!(decimal_of(n), n.to_string());
    }
}
