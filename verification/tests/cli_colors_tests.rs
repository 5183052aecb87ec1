use croner::cli_colors::{ansi_color, CliColorPicker, PALETTE_SIZE};
use std::collections::HashSet;

#[test]
fn returns_valid_ansi_codes() {
    let mut picker = CliColorPicker::new();
    let c = picker.get(0);
    assert!(c.starts_with("\u{1b}["), "Not an ANSI escape code: {}", c);
}

#[test]
fn same_job_id_returns_same_color() {
    let mut picker = CliColorPicker::new();
    let c1 = picker.get(5);
    let c2 = picker.get(5);
    assert_eq!(c1, c2, "Color changed for same job id");
}

#[test]
fn different_jobs_get_different_colors_until_exhaustion() {
    let mut picker = CliColorPicker::new();
    let mut seen = HashSet::new();

    for job_id in 0..100 {
        let c = picker.get(job_id);
        if !seen.insert(c) {
            break;
        }
    }

    assert!(seen.len() > 1, "Too few unique colors before repetition");
}

#[test]
fn cycles_colors_after_exhaustion() {
    let mut picker = CliColorPicker::new();
    let mut seen = HashSet::new();

    for job_id in 0..50 {
        seen.insert(picker.get(job_id));
    }

    let before_cycle = seen.clone();

    for job_id in 50..100 {
        seen.insert(picker.get(job_id));
    }

    assert!(seen.iter().all(|c| c.starts_with("\u{1b}[")));
    assert!(seen.len() >= before_cycle.len());
}

#[test]
fn high_job_ids_trigger_resize() {
    let mut picker = CliColorPicker::new();
    let high_id = 500;
    let c = picker.get(high_id);

    assert!(c.starts_with("\u{1b}["), "Invalid ANSI code for high ID");
}

#[test]
fn colors_cover_full_palette_over_time() {
    let mut picker = CliColorPicker::new();
    let mut seen = HashSet::new();

    for job_id in 0..500 {
        seen.insert(picker.get(job_id));
    }

    assert!(
        seen.len() >= 10,
        "Too few colors used over multiple cycles: {:?}",
        seen
    );
}

#[test]
fn huge_job_keys_cost_nothing() {
    let mut picker = CliColorPicker::new();
    let a = picker.get(usize::MAX);
    let b = picker.get(usize::MAX - 1);
    assert_eq!(picker.get(usize::MAX), a);
    assert_eq!(picker.get(usize::MAX - 1), b);
    assert_ne!(a, b);
}

#[test]
fn first_cycle_hands_out_every_colour_once() {
    let mut picker = CliColorPicker::new();
    let mut seen = HashSet::new();
    for job_id in 0..PALETTE_SIZE {
        assert!(seen.insert(picker.get(job_id)));
    }
    assert_eq!(seen.len(), 14);
    let mut second = HashSet::new();
    for job_id in PALETTE_SIZE..2 * PALETTE_SIZE {
        assert!(second.insert(picker.get(job_id)));
    }
    assert_eq!(second, seen);
}

#[test]
fn palette_is_the_fourteen_ansi_colours() {
    let want = [
        "\u{1b}[30m", "\u{1b}[31m", "\u{1b}[32m", "\u{1b}[33m", "\u{1b}[34m", "\u{1b}[35m",
        "\u{1b}[36m", "\u{1b}[90m", "\u{1b}[91m", "\u{1b}[92m", "\u{1b}[93m", "\u{1b}[94m",
        "\u{1b}[95m", "\u{1b}[96m",
    ];
    for (i, code) in want.iter().enumerate() {
        assert_eq!(ansi_color(i), *code);
    }
}

fn shuffled(seed: usize) -> Vec<usize> {
    let mut order: Vec<usize> = (0..14).collect();
    for i in (1..14).rev() {
        let j = seed.wrapping_add(i * 31) % (i + 1);
        order.swap(i, j);
    }
    order
}

#[test]
fn seeded_picker_follows_the_shuffle() {
    for seed in [0usize, 1, 12345, 999_999_999, usize::MAX] {
        let order = shuffled(seed);
        let mut picker = CliColorPicker::with_seed(seed);
        for (k, slot) in order.iter().enumerate() {
            assert_eq!(picker.get_with(1000 + k, 7), ansi_color(*slot), "seed {}", seed);
        }
        let mut again = order.clone();
        for i in (1..14).rev() {
            let j = 7usize.wrapping_add(i * 31) % (i + 1);
            again.swap(i, j);
        }
        assert_eq!(picker.get_with(5000, 7), ansi_color(again[0]));
        assert_eq!(picker.get_with(5001, 99), ansi_color(again[1]));
        assert_eq!(picker.get_with(1003, 99), ansi_color(order[3]));
    }
    assert_eq!(shuffled(0), vec![0, 3, 10, 7, 6, 12, 4, 1, 13, 9, 2, 5, 8, 11]);
}
