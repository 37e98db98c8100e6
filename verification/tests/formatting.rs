use std::time::Duration;

use tessera::terminal::markdown::{
    escape_markdown_table_cell, format_command_block_duration, format_command_block_output_size,
};
use tessera::terminal::ElapsedTime;

fn strip_zero_tenth(mut formatted: String) -> String {
    if formatted.ends_with(".0") {
        formatted.truncate(formatted.len() - 2);
    }
    formatted
}

fn float_duration_text(nanos: u64) -> String {
    let duration = Duration::from_nanos(nanos);
    if duration.as_millis() < 1_000 {
        return format!("{}ms", duration.as_millis());
    }
    let seconds = duration.as_secs_f64();
    if seconds < 10.0 {
        return format!("{}s", strip_zero_tenth(format!("{seconds:.1}")));
    }
    format!("{}s", duration.as_secs())
}

fn float_byte_size_text(bytes: usize) -> String {
    if bytes < 1024 {
        return format!("{bytes} B");
    }
    let value = bytes as f64;
    if value < 1024.0 * 1024.0 {
        return format!("{} KiB", strip_zero_tenth(format!("{:.1}", value / 1024.0)));
    }
    format!("{} MiB", strip_zero_tenth(format!("{:.1}", value / (1024.0 * 1024.0))))
}

struct Lcg(u64);

impl Lcg {
    fn next(&mut self) -> u64 {
        self.0 = self.0.wrapping_mul(6364136223846793005).wrapping_add(1442695040888963407);
        self.0 >> 11
    }
}

#[test]
fn duration_examples() {
    assert_eq!(format_command_block_duration(ElapsedTime::from_millis(0)), "0ms");
    assert_eq!(format_command_block_duration(ElapsedTime::from_millis(84)), "84ms");
    assert_eq!(format_command_block_duration(ElapsedTime::from_millis(999)), "999ms");
    assert_eq!(format_command_block_duration(ElapsedTime::from_millis(1_000)), "1s");
    assert_eq!(format_command_block_duration(ElapsedTime::from_millis(1_500)), "1.5s");
    assert_eq!(format_command_block_duration(ElapsedTime::from_millis(9_960)), "10s");
    assert_eq!(format_command_block_duration(ElapsedTime::from_secs(10)), "10s");
    assert_eq!(format_command_block_duration(ElapsedTime::from_millis(61_900)), "61s");
}

#[test]
fn duration_matches_float_formatting_at_every_tie() {
    let mut nanos: u64 = 0;
    while nanos <= 12_000_000_000 {
        assert_eq!(
            format_command_block_duration(ElapsedTime::from_nanos(nanos as u128)),
            float_duration_text(nanos),
            "nanos = {nanos}"
        );
        nanos += 50_000_000;
    }
}

#[test]
fn duration_matches_float_formatting_on_samples() {
    let mut rng = Lcg(7);
    for _ in 0..20_000 {
        let nanos = rng.next() % 12_000_000_000;
        assert_eq!(
            format_command_block_duration(ElapsedTime::from_nanos(nanos as u128)),
            float_duration_text(nanos),
            "nanos = {nanos}"
        );
    }
    for _ in 0..2_000 {
        let nanos = rng.next();
        assert_eq!(
            format_command_block_duration(ElapsedTime::from_nanos(nanos as u128)),
            float_duration_text(nanos),
            "nanos = {nanos}"
        );
    }
}

#[test]
fn byte_size_examples() {
    assert_eq!(format_command_block_output_size(0), "0 B");
    assert_eq!(format_command_block_output_size(1023), "1023 B");
    assert_eq!(format_command_block_output_size(1024), "1 KiB");
    assert_eq!(format_command_block_output_size(1536), "1.5 KiB");
    assert_eq!(format_command_block_output_size(1024 * 1024 - 1), "1024 KiB");
    assert_eq!(format_command_block_output_size(1024 * 1024), "1 MiB");
    assert_eq!(format_command_block_output_size(5 * 1024 * 1024 + 512 * 1024), "5.5 MiB");
}

#[test]
fn byte_size_matches_float_formatting() {
    for bytes in 0..20_000usize {
        assert_eq!(
            format_command_block_output_size(bytes),
            float_byte_size_text(bytes),
            "bytes = {bytes}"
        );
    }
    let mut rng = Lcg(11);
    for shift in [20u32, 30, 40, 52, 53, 60] {
        for _ in 0..2_000 {
            let bytes = (rng.next() % (1u64 << shift)) as usize;
            assert_eq!(
                format_command_block_output_size(bytes),
                float_byte_size_text(bytes),
                "bytes = {bytes}"
            );
        }
    }
    for bytes in [
        (1usize << 53) - 1,
        1usize << 53,
        (1usize << 53) + 1,
        (1usize << 53) + 3,
        usize::MAX,
        usize::MAX - 1,
    ] {
        assert_eq!(
            format_command_block_output_size(bytes),
            float_byte_size_text(bytes),
            "bytes = {bytes}"
        );
    }
}

#[test]
fn escapes_markdown_table_cells() {
    assert_eq!(escape_markdown_table_cell("a|b"), "a\\|b");
    assert_eq!(escape_markdown_table_cell("a\\b"), "a\\\\b");
    assert_eq!(escape_markdown_table_cell("a\r\nb"), "a\\r<br>b");
    assert_eq!(escape_markdown_table_cell("plain"), "plain");
}
