use rainbow_text::rainbow::{color_positions, rainbow};

const PI: f64 = std::f64::consts::PI;

/// The sine gradient at each position, with the given frequencies.
fn gradient(positions: &[(usize, usize)], freq_h: f64, freq_v: f64) -> Vec<(u8, u8, u8)> {
    positions
        .iter()
        .map(|&(col, row)| {
            let theta = col as f64 * freq_h + row as f64 * freq_v;
            let r = ((theta.sin() * 0.5 + 0.5) * 255.0) as u8;
            let g = (((theta + 2.0 * PI / 3.0).sin() * 0.5 + 0.5) * 255.0) as u8;
            let b = (((theta + 4.0 * PI / 3.0).sin() * 0.5 + 0.5) * 255.0) as u8;
            (r, g, b)
        })
        .collect()
}

fn colorize(input: &str) -> String {
    let colors = gradient(&color_positions(input), 0.23, 0.1);
    rainbow(input, &colors)
}

#[test]
fn test_rainbow_basic_string() {
    let input = "hello";
    let output = colorize(input);

    assert!(output.starts_with("\x1b[38;2;"));
    assert!(output.ends_with("\x1b[0m"));
    for ch in input.chars() {
        assert!(output.contains(ch));
    }
}

#[test]
fn test_rainbow_newline() {
    let input = "hi\nthere";
    let output = colorize(input);

    assert!(output.contains('\n'));
    let lines: Vec<&str> = output.split('\n').collect();
    assert!(lines[0].starts_with("\x1b[38;2;"));
    assert!(lines[1].starts_with("\x1b[38;2;"));
}

#[test]
fn test_rainbow_escape_sequence_passthrough() {
    let input = "A\x1b[31mB";
    let output = colorize(input);

    assert!(output.contains("A"));
    assert!(output.contains("B"));
    assert!(output.contains("\x1b[31m"));
    assert!(output.ends_with("\x1b[0m"));
}

#[test]
fn test_rainbow_empty_string() {
    let output = colorize("");
    assert_eq!(output, "\x1b[0m");
}

#[test]
fn test_rainbow_color_changes() {
    let output = colorize("ab");

    let first_color_start = output.find("38;2").unwrap();
    let second_color_start =
        output[first_color_start + 1..].find("38;2").unwrap() + first_color_start + 1;
    assert_ne!(first_color_start, second_color_start);
}

#[test]
fn profile_rainbow() {
    let input = "The quick brown fox jumps over the lazy dog. ".repeat(4);
    let start = std::time::Instant::now();
    for _ in 0..1000 {
        let _ = colorize(&input);
    }
    let elapsed = start.elapsed();
    println!("rainbow x1000 took {:?}", elapsed);
}

#[test]
fn exact_output_for_two_letters() {
    let colors = vec![(255, 0, 7), (12, 128, 9)];
    assert_eq!(color_positions("ab"), vec![(0, 0), (1, 0)]);
    assert_eq!(
        rainbow("ab", &colors),
        "\x1b[38;2;255;0;7ma\x1b[38;2;12;128;9mb\x1b[0m"
    );
}

#[test]
fn hello_letters_in_order() {
    let output = colorize("hello");
    let letters: String = output
        .split("\x1b[")
        .filter_map(|part| part.split('m').nth(1))
        .collect();
    assert_eq!(letters, "hello");
}

#[test]
fn line_break_advances_row_and_is_not_colored() {
    assert_eq!(color_positions("a\nb"), vec![(0, 0), (0, 1)]);
    let output = rainbow("a\nb", &vec![(1, 2, 3), (4, 5, 6)]);
    assert_eq!(output, "\x1b[38;2;1;2;3ma\n\x1b[38;2;4;5;6mb\x1b[0m");
}

#[test]
fn blank_lines_carry_no_color() {
    assert_eq!(color_positions("\n\n"), vec![]);
    assert_eq!(rainbow("\n\n", &vec![]), "\n\n\x1b[0m");
}

#[test]
fn foreign_color_suppresses_until_reset() {
    let input = "A\x1b[31mBC\x1b[0mD";
    let positions = color_positions(input);
    // A, the ESC that opens the sequence, and D after the reset
    assert_eq!(positions, vec![(0, 0), (1, 0), (5, 0)]);
    let output = rainbow(input, &vec![(1, 1, 1), (2, 2, 2), (3, 3, 3)]);
    assert_eq!(
        output,
        "\x1b[38;2;1;1;1mA\x1b[38;2;2;2;2m\x1b\x1b[\x1b[31mBC\x1b\x1b[\x1b[0m\x1b[38;2;3;3;3mD\x1b[0m"
    );
    let a = output.find('A').unwrap();
    let seq = output.find("\x1b[31m").unwrap();
    let b = output.find('B').unwrap();
    assert!(a < seq && seq < b);
    assert!(output.ends_with("\x1b[0m"));
}

#[test]
fn non_color_sequence_keeps_gradient() {
    let input = "\x1b[2Jx";
    let positions = color_positions(input);
    assert_eq!(positions, vec![(0, 0), (1, 0)]);
    let output = rainbow(input, &vec![(0, 0, 0), (9, 9, 9)]);
    assert_eq!(output, "\x1b[38;2;0;0;0m\x1b\x1b[\x1b[2J\x1b[38;2;9;9;9mx\x1b[0m");
}

#[test]
fn single_char_escape_passes_through() {
    let input = "\x1bcz";
    assert_eq!(color_positions(input), vec![(0, 0), (1, 0)]);
    let output = rainbow(input, &vec![(5, 5, 5), (6, 6, 6)]);
    assert_eq!(output, "\x1b[38;2;5;5;5m\x1b\x1bc\x1b[38;2;6;6;6mz\x1b[0m");
}

#[test]
fn unterminated_sequence_is_flushed_at_end() {
    let input = "\x1b[31";
    assert_eq!(color_positions(input), vec![(0, 0)]);
    let output = rainbow(input, &vec![(7, 8, 9)]);
    assert_eq!(output, "\x1b[38;2;7;8;9m\x1b\x1b[\x1b[31\x1b[0m");
    for ch in input.chars() {
        assert!(output.contains(ch));
    }
}

#[test]
fn tilde_terminated_sequence_does_not_suppress() {
    let input = "\x1b[1~q";
    assert_eq!(color_positions(input), vec![(0, 0), (1, 0)]);
    let output = rainbow(input, &vec![(1, 0, 0), (0, 1, 0)]);
    assert_eq!(output, "\x1b[38;2;1;0;0m\x1b\x1b[\x1b[1~\x1b[38;2;0;1;0mq\x1b[0m");
}
