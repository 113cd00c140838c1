use file_analyzer::accumulator::Accumulator;
use file_analyzer::driver::run;
use file_analyzer::output::{push_dec, serialize_matrix};
use file_analyzer::tree::FsEntry;

const WINDOW_SIZE: usize = 4096;
const NUM_VALUES: usize = 256;

fn matrix_sum(acc: &Accumulator) -> u64 {
    let mut sum: u64 = 0;
    for i in 0..WINDOW_SIZE {
        for v in 0..NUM_VALUES {
            sum += acc.cell_count(i, v) as u64;
        }
    }
    sum
}

fn line_of(counts: &[u32; NUM_VALUES]) -> String {
    let mut line = String::new();
    for (ix, c) in counts.iter().enumerate() {
        if ix != 0 {
            line.push(',');
        }
        line.push_str(&c.to_string());
    }
    line.push('\n');
    line
}

#[test]
fn single_file_two_bytes() {
    // A root containing one file with content "AB".
    let roots = vec![FsEntry::Dir(vec![FsEntry::File(vec![65, 66])])];
    let mut acc = Accumulator::new();
    acc.process_directory(&roots);
    assert_eq!(acc.processed, 1);
    assert_eq!(acc.cell_count(0, 65), 1);
    assert_eq!(acc.cell_count(1, 66), 1);
    // All other cells are zero: the two hits account for the whole sum.
    assert_eq!(matrix_sum(&acc), 2);
}

#[test]
fn empty_file_in_subdirectory() {
    // A root containing a subdirectory with one empty file.
    let roots = vec![FsEntry::Dir(vec![FsEntry::Dir(vec![FsEntry::File(vec![])])])];
    let mut acc = Accumulator::new();
    acc.process_directory(&roots);
    assert_eq!(acc.processed, 1);
    assert_eq!(matrix_sum(&acc), 0);
}

#[test]
fn symlink_is_skipped() {
    // A root containing a symbolic link (a non-regular entry) beside a
    // regular file: the link contributes nothing and is not dereferenced.
    let roots = vec![FsEntry::Dir(vec![FsEntry::Other, FsEntry::File(vec![65])])];
    let mut acc = Accumulator::new();
    acc.process_directory(&roots);
    assert_eq!(acc.processed, 1);
    assert_eq!(acc.cell_count(0, 65), 1);
    assert_eq!(matrix_sum(&acc), 1);
}

#[test]
fn only_symlink_counts_nothing() {
    let roots = vec![FsEntry::Dir(vec![FsEntry::Other])];
    let mut acc = Accumulator::new();
    acc.process_directory(&roots);
    assert_eq!(acc.processed, 0);
    assert_eq!(matrix_sum(&acc), 0);
}

#[test]
fn two_roots_accumulate() {
    // Two roots, each containing one single-byte file "A".
    let roots = vec![
        FsEntry::Dir(vec![FsEntry::File(vec![65])]),
        FsEntry::Dir(vec![FsEntry::File(vec![65])]),
    ];
    let mut acc = Accumulator::new();
    acc.process_directory(&roots);
    assert_eq!(acc.processed, 2);
    assert_eq!(acc.cell_count(0, 65), 2);
    assert_eq!(matrix_sum(&acc), 2);
}

#[test]
fn file_longer_than_window_is_truncated() {
    // 5000 bytes of 'A': only the first WINDOW_SIZE participate.
    let content = vec![65u8; WINDOW_SIZE + 904];
    let mut acc = Accumulator::new();
    acc.record_file(&content);
    assert_eq!(acc.processed, 1);
    for i in 0..WINDOW_SIZE {
        assert_eq!(acc.cell_count(i, 65), 1);
    }
    assert_eq!(matrix_sum(&acc), WINDOW_SIZE as u64);
}

#[test]
fn bytes_beyond_window_never_matter() {
    let mut head = vec![7u8; WINDOW_SIZE];
    let mut acc1 = Accumulator::new();
    acc1.record_file(&head);
    head.extend_from_slice(&[1, 2, 3, 4, 5]);
    let mut acc2 = Accumulator::new();
    acc2.record_file(&head);
    assert_eq!(serialize_matrix(&acc1), serialize_matrix(&acc2));
}

#[test]
fn short_file_touches_only_its_offsets() {
    // A file of length L contributes exactly L increments at offsets
    // 0..L-1 and none at offsets >= L.
    let mut acc = Accumulator::new();
    acc.record_file(&[9, 9, 9]);
    assert_eq!(acc.cell_count(0, 9), 1);
    assert_eq!(acc.cell_count(1, 9), 1);
    assert_eq!(acc.cell_count(2, 9), 1);
    assert_eq!(acc.cell_count(3, 9), 0);
    assert_eq!(matrix_sum(&acc), 3);
}

#[test]
fn progress_due_at_exact_multiples() {
    let mut acc = Accumulator::new();
    for n in 1u32..=1000 {
        let due = acc.record_file(&[]);
        assert_eq!(due, n % 1000 == 0);
    }
    assert_eq!(acc.processed, 1000);
}

#[test]
fn empty_run_serializes_all_zero_matrix() {
    // An empty tree still produces the full matrix: WINDOW_SIZE lines of
    // 256 zero fields.
    let roots: Vec<FsEntry> = vec![];
    let out = run(&roots);
    let expected_line = line_of(&[0u32; NUM_VALUES]);
    let mut expected = String::new();
    for _ in 0..WINDOW_SIZE {
        expected.push_str(&expected_line);
    }
    assert_eq!(out, expected.into_bytes());
}

#[test]
fn output_shape_is_fixed() {
    let roots = vec![FsEntry::Dir(vec![FsEntry::File(vec![0, 255, 128])])];
    let out = run(&roots);
    let text = String::from_utf8(out).unwrap();
    assert!(text.ends_with('\n'));
    let lines: Vec<&str> = text[..text.len() - 1].split('\n').collect();
    assert_eq!(lines.len(), WINDOW_SIZE);
    for line in lines {
        assert_eq!(line.split(',').count(), NUM_VALUES);
    }
}

#[test]
fn serialized_cells_land_in_their_columns() {
    let roots = vec![FsEntry::Dir(vec![FsEntry::File(vec![65, 66])])];
    let out = run(&roots);
    let text = String::from_utf8(out).unwrap();
    let lines: Vec<&str> = text.lines().collect();
    let mut expected0 = [0u32; NUM_VALUES];
    expected0[65] = 1;
    let mut expected1 = [0u32; NUM_VALUES];
    expected1[66] = 1;
    assert_eq!(format!("{}\n", lines[0]), line_of(&expected0));
    assert_eq!(format!("{}\n", lines[1]), line_of(&expected1));
    assert_eq!(format!("{}\n", lines[2]), line_of(&[0u32; NUM_VALUES]));
}

#[test]
fn run_twice_is_bit_identical() {
    let roots = vec![
        FsEntry::Dir(vec![
            FsEntry::File(vec![1, 2, 3]),
            FsEntry::Dir(vec![FsEntry::File(vec![200; 10]), FsEntry::Other]),
        ]),
        FsEntry::File(vec![42]),
    ];
    let first = run(&roots);
    let second = run(&roots);
    assert_eq!(first, second);
}

#[test]
fn root_that_is_a_file_is_sampled() {
    // A root is classified like any entry: a regular file root is sampled.
    let roots = vec![FsEntry::File(vec![66])];
    let mut acc = Accumulator::new();
    acc.process_directory(&roots);
    assert_eq!(acc.processed, 1);
    assert_eq!(acc.cell_count(0, 66), 1);
}

#[test]
fn decimal_rendering_is_exact() {
    let cases: [(u32, &str); 6] = [
        (0, "0"),
        (7, "7"),
        (10, "10"),
        (999, "999"),
        (1000, "1000"),
        (4294967295, "4294967295"),
    ];
    for (n, expected) in cases {
        let mut out: Vec<u8> = Vec::new();
        push_dec(&mut out, n);
        assert_eq!(out, expected.as_bytes());
    }
}
