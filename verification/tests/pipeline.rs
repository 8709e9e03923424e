use lbzip2::collector::{apply_result, flush_completed, InFlightSlot, SegmentResult};
use lbzip2::host::{
    count_cores, cpu_entry, fill_step, parse_count, parse_id, pipeline_workers, worker_budget,
    CpuEntry, CpuTopology, FillStep, ReadOutcome,
};

fn slot(chunk_id: u64, segments: usize) -> InFlightSlot<&'static str> {
    InFlightSlot {
        chunk_id,
        slot: "buffer",
        decode_segments: segments,
        results: (0..segments).map(|_| None).collect(),
        done_count: 0,
        is_last: false,
    }
}

fn result(chunk_id: u64, segment_id: usize, text: &str) -> SegmentResult {
    SegmentResult { chunk_id, segment_id, output: text.as_bytes().to_vec() }
}

/// What leaves, as one text, and in how many pieces.
fn written(in_flight: &mut Vec<InFlightSlot<&'static str>>, next: &mut u64) -> (String, usize) {
    let flushed = flush_completed(in_flight, next);
    let pieces: Vec<Vec<u8>> = flushed.into_iter().flat_map(|f| f.segments).collect();
    (String::from_utf8(pieces.concat()).unwrap(), pieces.len())
}

#[test]
fn results_commute() {
    let results = [(0, 0, "a"), (0, 1, "b"), (1, 0, "c"), (1, 1, "d")];
    for order in [[0, 1, 2, 3], [3, 2, 1, 0], [2, 0, 3, 1], [1, 3, 0, 2]] {
        let mut in_flight = vec![slot(0, 2), slot(1, 2)];
        let mut next = 0;
        let mut text = String::new();
        for i in order {
            let (chunk, segment, piece) = results[i];
            apply_result(&mut in_flight, result(chunk, segment, piece));
            text.push_str(&written(&mut in_flight, &mut next).0);
        }
        assert_eq!(text, "abcd");
        assert_eq!(next, 2);
        assert!(in_flight.is_empty());
    }
}

#[test]
fn chunks_leave_in_order() {
    let mut in_flight = vec![slot(1, 1), slot(0, 1)];
    let mut next = 0;
    apply_result(&mut in_flight, result(1, 0, "second"));
    assert_eq!(written(&mut in_flight, &mut next), (String::new(), 0));
    assert_eq!(in_flight.len(), 2);
    apply_result(&mut in_flight, result(0, 0, "first "));
    assert_eq!(written(&mut in_flight, &mut next), ("first second".to_string(), 2));
    assert_eq!(next, 2);
}

#[test]
fn chunk_leaves_whole() {
    let mut in_flight = vec![slot(0, 3)];
    let mut next = 0;
    apply_result(&mut in_flight, result(0, 2, "c"));
    apply_result(&mut in_flight, result(0, 0, "a"));
    assert_eq!(written(&mut in_flight, &mut next), (String::new(), 0));
    assert_eq!(in_flight[0].done_count, 2);
    // An empty text is not written.
    apply_result(&mut in_flight, result(0, 1, ""));
    assert_eq!(written(&mut in_flight, &mut next), ("ac".to_string(), 2));
}

#[test]
fn nothing_stays_behind() {
    let mut in_flight = vec![slot(3, 1), slot(0, 1), slot(2, 1), slot(1, 1)];
    let mut next = 0;
    for chunk in [2, 1, 0] {
        apply_result(&mut in_flight, result(chunk, 0, "x"));
    }
    assert_eq!(flush_completed(&mut in_flight, &mut next).len(), 3);
    assert_eq!(next, 3);
    assert_eq!(in_flight.len(), 1);
    assert!(flush_completed(&mut in_flight, &mut next).is_empty());
    assert_eq!(next, 3);
}

#[test]
fn chunk_without_segments_leaves_at_once() {
    let mut in_flight = vec![slot(5, 0)];
    let mut next = 5;
    let flushed = flush_completed(&mut in_flight, &mut next);
    assert_eq!(flushed.len(), 1);
    assert!(flushed[0].segments.is_empty());
    assert_eq!(flushed[0].slot, "buffer");
    assert_eq!(next, 6);
}

#[test]
fn result_without_a_chunk_is_dropped() {
    let mut in_flight = vec![slot(0, 1)];
    apply_result(&mut in_flight, result(9, 7, "lost"));
    assert_eq!(in_flight.len(), 1);
    assert_eq!(in_flight[0].done_count, 0);
    assert_eq!(in_flight[0].results, vec![None]);
}

#[test]
fn workers_are_counted() {
    assert_eq!(worker_budget(Some(3), Some(8)), 3);
    assert_eq!(worker_budget(Some(0), Some(8)), 1);
    assert_eq!(worker_budget(None, Some(8)), 8);
    assert_eq!(worker_budget(None, Some(0)), 1);
    assert_eq!(worker_budget(None, None), 4);
    assert_eq!(pipeline_workers(Some(0), Some(8)), 0);
    assert_eq!(pipeline_workers(None, Some(8)), 8);
    assert_eq!(pipeline_workers(None, None), 4);
}

#[test]
fn cores_are_counted() {
    let cpu = |package, core| CpuTopology { package, core };
    assert_eq!(count_cores(&[]), None);
    assert_eq!(count_cores(&[cpu(Some(0), None)]), None);
    let cpus = [
        cpu(Some(0), Some(0)),
        cpu(Some(0), Some(1)),
        cpu(Some(0), Some(0)),
        cpu(Some(1), Some(0)),
        cpu(None, Some(1)),
        cpu(Some(1), None),
    ];
    assert_eq!(count_cores(&cpus), Some(3));
}

#[test]
fn processors_are_told_by_name() {
    assert_eq!(cpu_entry(b"cpu0"), CpuEntry::Cpu);
    assert_eq!(cpu_entry(b"cpu17"), CpuEntry::Cpu);
    assert_eq!(cpu_entry(b"cpufreq"), CpuEntry::Other);
    assert_eq!(cpu_entry(b"cpu:"), CpuEntry::Other);
    assert_eq!(cpu_entry(b"online"), CpuEntry::Other);
    assert_eq!(cpu_entry(b"cp"), CpuEntry::Other);
    assert_eq!(cpu_entry(b"cpu"), CpuEntry::Unknown);
}

#[test]
fn buffer_is_filled() {
    assert_eq!(fill_step(0, 10, ReadOutcome::Bytes(4)), FillStep::Read(4));
    assert_eq!(fill_step(4, 10, ReadOutcome::Interrupted), FillStep::Read(4));
    assert_eq!(fill_step(4, 10, ReadOutcome::Bytes(6)), FillStep::Full(10));
    assert_eq!(fill_step(4, 10, ReadOutcome::End), FillStep::Full(4));
    assert_eq!(fill_step(4, 10, ReadOutcome::Failed), FillStep::Full(4));
}

#[test]
fn numbers_are_read() {
    let most = usize::MAX.to_string();
    let texts = [
        "0", "7", "32", "+8", "007", "", "+", "-1", "4x", " 4", "4 ", "++4", "1_000",
        "99999999999999999999999999", &most,
    ];
    for text in texts {
        assert_eq!(parse_count(text.as_bytes()), text.parse::<usize>().ok());
        assert_eq!(parse_id(text.as_bytes()), text.parse::<u32>().ok());
    }
    assert_eq!(parse_count(b"12"), Some(12));
    assert_eq!(parse_id(b"4294967295"), Some(u32::MAX));
    assert_eq!(parse_id(b"4294967296"), None);
    let over = format!("{}0", most);
    assert_eq!(parse_count(over.as_bytes()), None);
}
