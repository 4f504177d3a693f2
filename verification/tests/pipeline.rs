use elden_analyzer::components::{AccumDetection, Detection};
use elden_analyzer::det_accum::DetAccumulator;
use elden_analyzer::rat::Rational;
use elden_analyzer::stages::{DetectionStage, ResolvedPacket, TextStage};
use elden_analyzer::text_accum::{AccumResult, Confidence, ExtractedTexts, Recognition};
use elden_analyzer::time::{Duration, FramePosition, Timestamp};
use elden_analyzer::time_text::{format_timestamp, parse_timestamp as lib_parse, TimestampParseError};

fn pos(i: usize) -> FramePosition {
    FramePosition::new(i, Timestamp::new(Rational::new(i as i64, 30)))
}

fn is_found(d: &AccumDetection<u8>) -> bool {
    matches!(d, AccumDetection::Found(_))
}

#[test]
fn continuity_promotes_possible_before_found() {
    // Possible@0, Found@1: frame 0 resolves as part of the Found span,
    // which starts at 0, not at 1
    let mut acc: DetAccumulator<u8> = DetAccumulator::new();
    acc.receive_frame(pos(0), Detection::Possible(None));
    assert_eq!(acc.buffered(), 1);
    acc.receive_frame(pos(1), Detection::Found(None));
    assert_eq!(acc.buffered(), 0);
    assert_eq!(acc.span_start().map(|p| p.index()), Some(0));
    let first = acc.pop_packet().unwrap();
    assert_eq!(first.0, 0);
    assert!(is_found(&first.1));
    let second = acc.pop_packet().unwrap();
    assert_eq!(second.0, 1);
    assert!(is_found(&second.1));
    assert!(acc.pop_packet().is_none());
}

#[test]
fn possible_after_found_continues_the_span() {
    let mut acc: DetAccumulator<u8> = DetAccumulator::new();
    acc.receive_frame(pos(0), Detection::Found(None));
    acc.receive_frame(pos(1), Detection::Possible(None));
    // the Possible immediately after a Found counts as Found
    assert_eq!(acc.buffered(), 0);
    let first = acc.pop_packet().unwrap();
    assert!(is_found(&first.1));
    let second = acc.pop_packet().unwrap();
    assert!(is_found(&second.1));
}

#[test]
fn expiry_resolves_oldest_possible_to_absent() {
    // 61 consecutive Possible frames: once frame 60 arrives, frame 0 has
    // fallen out of the 60-frame window and resolves to Absent; frames
    // 1..=60 stay buffered
    let mut acc: DetAccumulator<u8> = DetAccumulator::new();
    for i in 0..=60 {
        acc.receive_frame(pos(i), Detection::Possible(None));
    }
    assert_eq!(acc.buffered(), 60);
    let released = acc.pop_packet().unwrap();
    assert_eq!(released.0, 0);
    assert!(matches!(released.1, AccumDetection::Absent));
    assert!(acc.pop_packet().is_none());
}

#[test]
fn absent_flushes_buffer_and_closes_span() {
    let mut acc: DetAccumulator<u8> = DetAccumulator::new();
    acc.receive_frame(pos(0), Detection::Found(None));
    let closed = acc.receive_frame(pos(1), Detection::Absent);
    let (start, end) = closed.unwrap();
    assert_eq!(start.index(), 0);
    assert_eq!(end.index(), 1);
    assert!(acc.span_start().is_none());
}

#[test]
fn detection_stage_releases_in_lock_step() {
    // two components: one resolves immediately, the other holds a Possible
    // until it expires or resolves; nothing is released until both know
    let mut stage: DetectionStage<u8, ()> = DetectionStage::new(2);
    let out = stage.process_frame(
        pos(0),
        (),
        vec![Detection::Absent, Detection::Possible(None)],
    );
    assert_eq!(out.len(), 0);
    let out = stage.process_frame(pos(1), (), vec![Detection::Absent, Detection::Found(None)]);
    // component 1's Found promoted its Possible: both frames release now
    assert_eq!(out.len(), 2);
    assert_eq!(out[0].0, 0);
    assert_eq!(out[1].0, 1);
    match &out[0].1 {
        ResolvedPacket::Frame { pos: p, results, .. } => {
            assert_eq!(p.index(), 0);
            assert!(matches!(results[0], AccumDetection::Absent));
            assert!(is_found(&results[1]));
        }
        ResolvedPacket::EndOfFrames { .. } => panic!("expected a frame"),
    }
    let out = stage.process_end(pos(2));
    assert_eq!(out.len(), 1);
    assert_eq!(out[0].0, 2);
    assert!(matches!(out[0].1, ResolvedPacket::EndOfFrames { .. }));
}

#[test]
fn end_to_end_single_span() {
    // a 100-frame input: Absent for 0-9, Found for 10-29, Absent for 30-99,
    // with OCR always reading ITEM at confidence 0.9; exactly one span
    // [10, 30) with text ITEM comes out
    let mut det: DetectionStage<u8, ()> = DetectionStage::new(1);
    let mut text = TextStage::new(1, pos(0), Duration::new(Rational::new(1, 30)));
    let mut spans: Vec<AccumResult> = Vec::new();

    let mut handle = |packets: Vec<(u64, ResolvedPacket<u8, ()>)>,
                      text: &mut TextStage,
                      spans: &mut Vec<AccumResult>| {
        for (_seq, packet) in packets {
            match packet {
                ResolvedPacket::Frame { pos, results, .. } => {
                    let texts = results
                        .iter()
                        .map(|d| {
                            if is_found(d) {
                                Some(ExtractedTexts {
                                    result: vec![Recognition::Found(
                                        "ITEM".to_owned(),
                                        Confidence::new(90),
                                    )],
                                })
                            } else {
                                None
                            }
                        })
                        .collect();
                    let out = text.process_frame(pos, texts).unwrap();
                    spans.extend(out.spans.into_iter().flatten());
                }
                ResolvedPacket::EndOfFrames { pos } => {
                    let out = text.process_end(pos).unwrap();
                    spans.extend(out.spans.into_iter().flatten());
                }
            }
        }
    };

    for i in 0..100 {
        let d = if (10..30).contains(&i) {
            Detection::Found(None)
        } else {
            Detection::Absent
        };
        let out = det.process_frame(pos(i), (), vec![d]);
        handle(out, &mut text, &mut spans);
    }
    let out = det.process_end(pos(100));
    handle(out, &mut text, &mut spans);

    assert_eq!(spans.len(), 1);
    assert_eq!(spans[0].start.index(), 10);
    assert_eq!(spans[0].end.index(), 30);
    assert_eq!(spans[0].text, "ITEM");
    assert_eq!(spans[0].name, "main_item");
}

#[test]
fn rational_comparisons_are_exact() {
    let a = Rational::new(1, 3);
    let b = Rational::new(2, 6);
    let c = Rational::new(1, 2);
    assert!(a.eq_value(&b));
    assert!(a.lt(&c));
    assert!(a.le(&c));
    assert!(!c.le(&a));
}

#[test]
fn frame_position_next_advances_exactly() {
    let spf = Duration::new(Rational::new(1001, 30000));
    let p = pos(0);
    let q = p.next(&spf).unwrap();
    assert_eq!(q.index(), 1);
    // 0/30 + 1001/30000 = 1001/30000
    assert!(q.timestamp().as_ratio().eq_value(&Rational::new(1001, 30000)));
}

#[test]
fn parse_timestamp() {
    fn p(s: &str) -> String {
        format_timestamp(&lib_parse(s).unwrap())
    }
    assert_eq!(p("01:23:45.678"), "01:23:45.678");
    assert_eq!(p("01:23:45"), "01:23:45.000");
    assert_eq!(p("3672"), "01:01:12.000");
}

#[test]
fn parse_timestamp_rejects_bad_shapes() {
    assert!(matches!(
        lib_parse("1:2:3:4").unwrap_err(),
        TimestampParseError::InvalidFormat
    ));
    assert!(matches!(
        lib_parse("ab").unwrap_err(),
        TimestampParseError::ParseInt
    ));
    assert!(matches!(
        lib_parse("").unwrap_err(),
        TimestampParseError::ParseInt
    ));
    assert!(matches!(
        lib_parse("1:").unwrap_err(),
        TimestampParseError::ParseInt
    ));
}

#[test]
fn probe_rows_follow_span_boundaries() {
    // one component, one span over frames 1..3 reading "A": a row is
    // emitted exactly when the decided state changes, carrying the probe
    // position saved at the start of the unchanged interval
    let mut stage = TextStage::new(1, pos(0), Duration::new(Rational::new(1, 30)));
    let texts = |s: &str| {
        Some(ExtractedTexts {
            result: vec![Recognition::Found(s.to_owned(), Confidence::new(90))],
        })
    };
    let mut rows = Vec::new();
    let out = stage.process_frame(pos(0), vec![None]).unwrap();
    rows.extend(out.rows);
    let out = stage.process_frame(pos(1), vec![texts("A")]).unwrap();
    rows.extend(out.rows);
    let out = stage.process_frame(pos(2), vec![texts("A")]).unwrap();
    rows.extend(out.rows);
    let out = stage.process_frame(pos(3), vec![None]).unwrap();
    rows.extend(out.rows);
    let out = stage.process_end(pos(4)).unwrap();
    rows.extend(out.rows);

    let summary: Vec<(usize, Vec<&str>)> = rows
        .iter()
        .map(|r| {
            (
                r.pos.index(),
                r.texts.iter().map(|t| t.as_str()).collect(),
            )
        })
        .collect();
    // the span opens at 1 (row written for the interval that began at 0),
    // closes at 3 (row for the interval that began at 1, with its text),
    // and the stream ends at 4 (row for the interval that began at 3)
    assert_eq!(
        summary,
        vec![(0, vec![""]), (1, vec!["A"]), (3, vec![""])]
    );
}

#[test]
fn next_fails_only_out_of_machine_range() {
    // close to the top of the bounded rational range, one more whole-second
    // step cannot be represented
    let bound = 0x4000_0000_0000_0000i64;
    let spf = Duration::new(Rational::new(1, 1));
    let near_top = FramePosition::new(0, Timestamp::new(Rational::new(bound - 1, 1)));
    assert!(near_top.next(&spf).is_none());
    // an ordinary position advances fine
    assert!(pos(0).next(&spf).is_some());
}

#[test]
fn text_stage_reports_probe_out_of_range() {
    let bound = 0x4000_0000_0000_0000i64;
    let start = FramePosition::new(0, Timestamp::new(Rational::new(bound - 1, 1)));
    let mut stage = TextStage::new(1, start, Duration::new(Rational::new(1, 1)));
    // the first probe advance already leaves the machine range
    let r = stage.process_frame(FramePosition::new(0, start.timestamp()), vec![None]);
    assert!(r.is_err());
}
