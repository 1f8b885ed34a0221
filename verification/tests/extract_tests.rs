use rla::Index;
use rla::extract::Config;
use rla::extract::Line;
use rla::extract::extract;
use rla::extract::load_lines;
use rla::extract::render_blocks;
use rla::sanitize::NoiseContext;

fn line(s: &[u8]) -> Line {
    Line { original: s.to_vec(), sanitized: s.to_vec() }
}

fn known_index(lines: &[&[u8]]) -> Index {
    let mut idx = Index::new();
    for l in lines.iter() {
        idx.learn(l.to_vec());
    }
    idx
}

fn cfg(max_gap: usize, min_block_lines: usize) -> Config {
    Config { max_gap, min_block_lines }
}

#[test]
fn gap_of_one_known_line_is_tolerated() {
    let idx = known_index(&[b"k"]);
    let lines = vec![line(b"u1"), line(b"k"), line(b"u2")];
    let blocks = extract(&cfg(1, 1), &idx, &lines);
    assert_eq!(blocks, vec![vec![0usize, 1, 2]]);
}

#[test]
fn gap_of_zero_splits_into_two_blocks() {
    let idx = known_index(&[b"k"]);
    let lines = vec![line(b"u1"), line(b"k"), line(b"u2")];
    let blocks = extract(&cfg(0, 1), &idx, &lines);
    assert_eq!(blocks, vec![vec![0usize], vec![2usize]]);
}

#[test]
fn gap_of_zero_with_min_two_drops_both_blocks() {
    let idx = known_index(&[b"k"]);
    let lines = vec![line(b"u1"), line(b"k"), line(b"u2")];
    let blocks = extract(&cfg(0, 2), &idx, &lines);
    assert_eq!(blocks, Vec::<Vec<usize>>::new());
}

#[test]
fn lone_unknown_line_dropped_when_min_is_two() {
    let idx = known_index(&[b"k"]);
    let lines = vec![line(b"k"), line(b"u"), line(b"k")];
    assert_eq!(extract(&cfg(1, 2), &idx, &lines), Vec::<Vec<usize>>::new());
    assert_eq!(extract(&cfg(1, 1), &idx, &lines), vec![vec![1usize]]);
}

#[test]
fn blank_line_never_starts_a_block() {
    let idx = known_index(&[]);
    let lines = vec![line(b""), line(b"u")];
    assert_eq!(extract(&cfg(1, 1), &idx, &lines), vec![vec![1usize]]);
}

#[test]
fn blank_line_acts_as_gap_not_as_unknown() {
    let idx = known_index(&[]);
    let lines = vec![line(b"u1"), line(b""), line(b"u2")];
    // tolerated inside the block like any recognized line
    assert_eq!(extract(&cfg(1, 1), &idx, &lines), vec![vec![0usize, 1, 2]]);
    // and closing the block when no gap is tolerated
    assert_eq!(extract(&cfg(0, 1), &idx, &lines), vec![vec![0usize], vec![2usize]]);
}

#[test]
fn blank_lines_do_not_count_toward_minimum_length() {
    let idx = known_index(&[]);
    let lines = vec![line(b"u1"), line(b""), line(b"u2")];
    // two unknown lines: reported with min 2, dropped with min 3
    assert_eq!(extract(&cfg(1, 2), &idx, &lines), vec![vec![0usize, 1, 2]]);
    assert_eq!(extract(&cfg(1, 3), &idx, &lines), Vec::<Vec<usize>>::new());
}

#[test]
fn trailing_known_lines_are_trimmed_from_an_open_block() {
    let idx = known_index(&[b"k"]);
    let lines = vec![line(b"u1"), line(b"u2"), line(b"k")];
    assert_eq!(extract(&cfg(2, 1), &idx, &lines), vec![vec![0usize, 1]]);
}

#[test]
fn blocks_preserve_source_order() {
    let idx = known_index(&[b"k"]);
    let lines = vec![
        line(b"u1"),
        line(b"k"),
        line(b"k"),
        line(b"u2"),
        line(b"u3"),
        line(b"k"),
        line(b"k"),
        line(b"u4"),
    ];
    let blocks = extract(&cfg(1, 1), &idx, &lines);
    assert_eq!(blocks, vec![vec![0usize], vec![3usize, 4], vec![7usize]]);
    let mut last: Option<usize> = None;
    for b in &blocks {
        for &i in b {
            if let Some(prev) = last {
                assert!(prev < i);
            }
            last = Some(i);
        }
    }
}

#[test]
fn extraction_is_deterministic() {
    let idx = known_index(&[b"k"]);
    let lines = vec![line(b"u1"), line(b"k"), line(b"u2"), line(b"k"), line(b"u3")];
    let c = cfg(1, 1);
    let first = extract(&c, &idx, &lines);
    let second = extract(&c, &idx, &lines);
    assert_eq!(first, second);
}

#[test]
fn sanitized_accessor_returns_the_canonical_form() {
    let l = Line { original: b"  x ".to_vec(), sanitized: b"x".to_vec() };
    assert_eq!(l.sanitized(), &b"x".to_vec());
}

#[test]
fn default_config_values() {
    let c = Config::default();
    assert_eq!(c.max_gap, 1);
    assert_eq!(c.min_block_lines, 2);
}

#[test]
fn render_separates_blocks_with_delimiter_line() {
    let lines = vec![line(b"a"), line(b"b"), line(b"c")];
    let blocks = vec![vec![0usize], vec![2usize]];
    assert_eq!(render_blocks(&lines, &blocks), b"a\n---\nc\n".to_vec());
}

#[test]
fn render_of_no_blocks_is_empty() {
    let lines = vec![line(b"a")];
    assert_eq!(render_blocks(&lines, &Vec::new()), Vec::<u8>::new());
}

#[test]
fn load_lines_keeps_bare_carriage_returns_and_trailing_fragment() {
    let ctx = NoiseContext::new(Vec::new(), b"[X]".to_vec()).expect("context should build");
    let lines = load_lines(&ctx, b"a\r\nb\rc\nd");
    let sanitized: Vec<Vec<u8>> = lines.iter().map(|l| l.sanitized.clone()).collect();
    assert_eq!(sanitized, vec![b"a".to_vec(), b"b\rc".to_vec(), b"d".to_vec()]);
}

#[test]
fn end_to_end_scenario() {
    let ctx = NoiseContext::new(Vec::new(), b"[X]".to_vec()).expect("context should build");
    let corpus: [&[u8]; 3] = [b"building...", b"ok", b"warning: unused var"];
    let mut idx = Index::new();
    for raw in corpus.iter() {
        idx.learn(ctx.clean(raw));
    }
    let saved = idx.encode();
    let idx = Index::decode(&saved).expect("roundtrip should decode");
    for raw in corpus.iter() {
        assert!(idx.contains(&ctx.clean(raw)));
    }

    let log = b"building...\nok\npanic: index out of bounds\n  at main.rs:12\nok";
    let lines = load_lines(&ctx, log);
    let blocks = extract(&cfg(1, 1), &idx, &lines);
    assert_eq!(blocks, vec![vec![2usize, 3]]);
    assert_eq!(
        render_blocks(&lines, &blocks),
        b"panic: index out of bounds\nat main.rs:12\n".to_vec()
    );
}
