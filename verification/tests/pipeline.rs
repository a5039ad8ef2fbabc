use rotatevideo::error::Fault;
use rotatevideo::pipeline::{
    chunked_frames, finished_frames, fits_budget, hold, last_to_first, list_chunks, sink_ending, sink_failure,
    source_ending, split_frames, Decoded, Ending, Exit, FrameReader, FrameState, Holding, Received, Transfer,
};
use rotatevideo::sys::{check_interrupted, free_space, phys_mem};
use std::io::{self, Read};

/// Ok(true) = full frame, Ok(false) = clean EOF before the frame, Err = truncated frame.
fn read_frame<R: Read>(r: &mut R, buf: &mut [u8]) -> io::Result<bool> {
    let mut frame = FrameReader::new(buf.len());
    loop {
        match frame.state {
            FrameState::Full => return Ok(true),
            FrameState::Ended => return Ok(false),
            FrameState::Truncated => return Err(io::ErrorKind::UnexpectedEof.into()),
            FrameState::Failed => return Err(io::ErrorKind::Other.into()),
            FrameState::Reading => {}
        }
        let got = match r.read(&mut buf[frame.got..]) {
            Ok(n) => Received::Bytes(n),
            Err(e) if e.kind() == io::ErrorKind::Interrupted => Received::Interrupted,
            Err(_) => Received::Failed,
        };
        frame.receive(got);
    }
}

#[test]
fn read_frame_eof_handling() {
    let data = vec![1u8; 10];
    let mut cur = io::Cursor::new(data);
    let mut buf = [0u8; 4];
    assert!(read_frame(&mut cur, &mut buf).unwrap());
    assert!(read_frame(&mut cur, &mut buf).unwrap());
    assert!(read_frame(&mut cur, &mut buf).is_err());
    let mut cur = io::Cursor::new(vec![1u8; 8]);
    assert!(read_frame(&mut cur, &mut buf).unwrap());
    assert!(read_frame(&mut cur, &mut buf).unwrap());
    assert!(!read_frame(&mut cur, &mut buf).unwrap());
}

#[test]
fn chunk_listing_sorted() {
    let names: Vec<String> = ["chunk-000002.mkv", "chunk-000000.mkv", "other.txt", "chunk-000001.mkv"]
        .iter()
        .map(|n| n.to_string())
        .collect();
    assert_eq!(list_chunks(&names), ["chunk-000000.mkv", "chunk-000001.mkv", "chunk-000002.mkv"]);
}

#[test]
fn frames_come_in_pieces() {
    let mut f = FrameReader::new(10);
    f.receive(Received::Bytes(3));
    f.receive(Received::Interrupted);
    assert_eq!((f.got, f.state), (3, FrameState::Reading));
    f.receive(Received::Bytes(7));
    assert_eq!((f.got, f.state), (10, FrameState::Full));
    let mut f = FrameReader::new(10);
    f.receive(Received::Bytes(9));
    f.receive(Received::Bytes(0));
    assert_eq!(f.state, FrameState::Truncated);
    let mut f = FrameReader::new(10);
    f.receive(Received::Bytes(0));
    assert_eq!(f.state, FrameState::Ended);
    let mut f = FrameReader::new(10);
    f.receive(Received::Failed);
    assert_eq!(f.state, FrameState::Failed);
    assert_eq!(FrameReader::new(0).state, FrameState::Full);
}

#[test]
fn decoded_bytes_are_split_into_frames() {
    let data: Vec<u8> = (0..12).collect();
    let v = split_frames(&data, 4).unwrap();
    assert_eq!(v, [[0, 1, 2, 3], [4, 5, 6, 7], [8, 9, 10, 11]]);
    assert_eq!(v.concat(), data);
    assert_eq!(split_frames(&data, 5), None);
    assert_eq!(split_frames(&[], 5), Some(Vec::new()));
}

#[test]
fn budgets_count_the_next_frame() {
    assert!(fits_budget(10, 100, Some(1000)));
    assert!(!fits_budget(11, 100, Some(1000)));
    assert!(fits_budget(usize::MAX, usize::MAX, None));
    assert!(!fits_budget(usize::MAX, usize::MAX, Some(u64::MAX)));
}

#[test]
fn a_volume_that_just_fits_is_held() {
    assert_eq!(hold(9, Decoded::Frame, 100, Some(1000)), Holding::Keep);
    assert_eq!(hold(10, Decoded::End, 100, Some(1000)), Holding::Done);
    assert_eq!(hold(10, Decoded::Frame, 100, Some(1000)), Holding::TooLarge);
    assert_eq!(hold(10, Decoded::Frame, 100, None), Holding::Keep);
    assert_eq!(hold(11, Decoded::End, 100, Some(1000)), Holding::TooLarge);
    assert_eq!(hold(0, Decoded::End, 100, Some(0)), Holding::Done);
}

#[test]
fn chunks_are_walked_back() {
    assert_eq!(last_to_first(4), [3, 2, 1, 0]);
    assert_eq!(last_to_first(0), Vec::<usize>::new());
    let chunks = [vec![0, 1, 2], vec![3, 4, 5], vec![6]];
    let mut seen = Vec::new();
    for i in last_to_first(chunks.len()) {
        for j in last_to_first(chunks[i].len()) {
            seen.push(chunks[i][j]);
        }
    }
    assert_eq!(seen, [6, 5, 4, 3, 2, 1, 0]);
}

#[test]
fn chunk_names_sort_by_number() {
    let mut names: Vec<String> = (0..1200).rev().map(|i| format!("chunk-{i:06}.mkv")).collect();
    let sorted = list_chunks(&names);
    names.reverse();
    assert_eq!(sorted, names);
}

#[test]
fn polled_counts() {
    assert_eq!(chunked_frames(0, 100), 0);
    assert_eq!(chunked_frames(1, 100), 0);
    assert_eq!(chunked_frames(5, 100), 400);
    assert_eq!(finished_frames(7, Some(9)), 7);
    assert_eq!(finished_frames(0, Some(9)), 9);
    assert_eq!(finished_frames(0, None), 0);
}

#[test]
fn endings() {
    assert_eq!(sink_ending(Transfer::Done(5), Exit::Success), Ending::Frames(5));
    assert_eq!(sink_ending(Transfer::Done(5), Exit::Failure), Ending::ProcessFailed);
    assert_eq!(sink_ending(Transfer::Done(5), Exit::Unknown), Ending::WaitFailed);
    assert_eq!(sink_ending(Transfer::Failed, Exit::Failure), Ending::ProcessFailed);
    assert_eq!(sink_ending(Transfer::Failed, Exit::Success), Ending::TransferFailed);
    assert_eq!(sink_ending(Transfer::Panicked, Exit::Success), Ending::ThreadPanicked);
    assert_eq!(source_ending(Transfer::Done(5), Exit::Success), Ending::Frames(5));
    assert_eq!(source_ending(Transfer::Done(5), Exit::Failure), Ending::ProcessFailed);
    assert_eq!(source_ending(Transfer::Done(5), Exit::Unknown), Ending::WaitFailed);
    assert_eq!(source_ending(Transfer::Failed, Exit::Failure), Ending::TransferFailed);
    assert_eq!(source_ending(Transfer::Panicked, Exit::Failure), Ending::ThreadPanicked);
    assert_eq!(sink_failure(Exit::Failure, true), Ending::ProcessFailed);
    assert_eq!(sink_failure(Exit::Unknown, true), Ending::TransferFailed);
    assert_eq!(sink_failure(Exit::Success, false), Ending::Stopped);
}

#[test]
fn the_machine() {
    assert!(check_interrupted(false).is_ok());
    assert_eq!(check_interrupted(true).unwrap_err().fault, Fault::Interrupted);
    assert_eq!(phys_mem(1000, 4096), Some(4_096_000));
    assert_eq!(phys_mem(-1, 4096), None);
    assert_eq!(phys_mem(1000, 0), None);
    assert_eq!(free_space(true, 10, 512), Some(5120));
    assert_eq!(free_space(false, 10, 512), None);
}
