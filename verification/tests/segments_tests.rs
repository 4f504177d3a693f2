use elden_analyzer::segments::{
    continuous_points, find_line_segments, join_segments, true_segments, Segment,
};

fn seg(vote: u32, start: i32, end: i32) -> Segment {
    Segment { vote, start, end }
}

fn run(start: i32, end: i32) -> Segment {
    seg((end - start) as u32, start, end)
}

#[test]
fn test_continuous_points() {
    fn cp(seq: &[bool]) -> Vec<Segment> {
        continuous_points(&seq.to_vec())
    }

    let seq = [true; 10];
    assert_eq!(cp(&seq), [run(0, 10)]);

    let seq = [false; 10];
    assert_eq!(cp(&seq), []);

    let seq = [false, true, false, true, false, true, true, true];
    assert_eq!(cp(&seq), [run(1, 2), run(3, 4), run(5, 8)]);

    let seq = [
        true, false, true, true, false, false, true, false, false, false, true, true, false,
    ];
    assert_eq!(cp(&seq), [run(0, 1), run(2, 4), run(6, 7), run(10, 12)]);
}

#[test]
fn test_join_segments() {
    fn js(seq: &[bool], max_line_gap: i32) -> Vec<Segment> {
        join_segments(continuous_points(&seq.to_vec()), max_line_gap)
    }

    let seq = [true; 10];
    assert_eq!(js(&seq, 0), [run(0, 10)]);

    let seq = [false; 10];
    assert_eq!(js(&seq, 0), []);

    let seq = [false, true, false, true, false, true, true, true];
    assert_eq!(js(&seq, 0), [run(1, 2), run(3, 4), run(5, 8)]);
    assert_eq!(js(&seq, 1), [seg(5, 1, 8)]);

    let seq = [
        true, false, true, true, false, false, true, false, false, false, true, true, false,
    ];
    assert_eq!(js(&seq, 0), [run(0, 1), run(2, 4), run(6, 7), run(10, 12)]);
    assert_eq!(js(&seq, 1), [seg(3, 0, 4), run(6, 7), run(10, 12)]);
    assert_eq!(js(&seq, 2), [seg(4, 0, 7), run(10, 12)]);
    assert_eq!(js(&seq, 3), [seg(6, 0, 12)]);
}

#[test]
fn test_true_segments() {
    fn ts(vs: &[bool]) -> Vec<(usize, usize)> {
        true_segments(&vs.to_vec())
    }

    assert_eq!(ts(&[false]), []);
    assert_eq!(ts(&[true]), [(0, 1)]);
    assert_eq!(ts(&[true, false, true]), [(0, 1), (2, 3)]);
    assert_eq!(ts(&[false, true, true]), [(1, 3)]);
    assert_eq!(ts(&[true, true, true, false]), [(0, 3)]);
    assert_eq!(
        ts(&[true, false, true, false, true, false, true, false]),
        [(0, 1), (2, 3), (4, 5), (6, 7)]
    );
}

#[test]
fn find_filters_by_votes_and_length() {
    // one long run and one short run with a bridgeable gap
    let mut cells = vec![false; 20];
    for c in cells.iter_mut().take(8).skip(2) {
        *c = true;
    }
    for c in cells.iter_mut().take(13).skip(10) {
        *c = true;
    }
    // gap of 2 between [2,8) and [10,13): joined when max_line_gap >= 2
    let found = find_line_segments(&cells, 9, 5, 2);
    assert_eq!(found, vec![(2, 13)]);
    // with a zero gap nothing reaches 9 votes
    let found = find_line_segments(&cells, 9, 5, 0);
    assert_eq!(found, vec![]);
}
