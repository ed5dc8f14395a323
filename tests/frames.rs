use lurk::{
    aggregation_size_of, frames_chained, is_power_of_two, multiframes_chained, pad_statements,
    CircuitFrame, ContPtr, ContTag, Frame, Groth16Prover, MultiFrame, Pool, Ptr, Tag, IO,
};

fn state(expr: usize, cont: ContTag) -> IO {
    IO {
        expr: Ptr { tag: Tag::Num, idx: expr },
        env: Ptr { tag: Tag::Nil, idx: 0 },
        cont: ContPtr { tag: cont, idx: expr },
    }
}

/// A chained run of `n` frames whose last output is terminal.
fn run(n: usize) -> Vec<Frame> {
    let mut frames = Vec::new();
    for i in 0..n {
        let out_cont = if i + 1 == n { ContTag::Terminal } else { ContTag::Outermost };
        frames.push(Frame {
            input: state(i, ContTag::Outermost),
            output: state(i + 1, out_cont),
            i,
        });
    }
    frames
}

#[test]
fn chunking_pads_last_group_with_stutters() {
    let frames = run(5);
    let mfs = MultiFrame::from_frames(2, &frames);
    assert_eq!(mfs.len(), 3);
    let last = mfs[2].frames.as_ref().unwrap();
    assert_eq!(last.len(), 2);
    assert_eq!(last[0], frames[4]);
    assert_eq!(last[1].input, frames[4].output);
    assert_eq!(last[1].output, frames[4].output);
    assert_eq!(last[1].i, 5);
    assert!(last[1].output.cont.tag.is_terminal());
    for mf in &mfs {
        assert_eq!(mf.initial, frames[0].input);
        assert_eq!(mf.chunk_size, 2);
    }
    assert_eq!(mfs[1].input, frames[2].input);
    assert_eq!(mfs[1].output, frames[3].output);
    assert_eq!(mfs[1].i, 2);
}

#[test]
fn chunking_keeps_chain() {
    let frames = run(7);
    assert!(frames_chained(&frames));
    for k in [1usize, 2, 3, 4, 8] {
        let mfs = MultiFrame::from_frames(k, &frames);
        assert!(multiframes_chained(&mfs));
        let mut all = Vec::new();
        for mf in &mfs {
            all.extend(mf.frames.as_ref().unwrap().iter().copied());
        }
        assert!(frames_chained(&all));
        assert_eq!(all.len() % k, 0);
    }
}

#[test]
fn broken_chain_is_detected() {
    let mut frames = run(4);
    frames[2].i = 7;
    assert!(!frames_chained(&frames));
    let mut other = run(4);
    other[3].input = state(9, ContTag::Outermost);
    assert!(!frames_chained(&other));
    let mut mfs = MultiFrame::from_frames(2, &run(4));
    mfs[1].input = state(42, ContTag::Outermost);
    assert!(!multiframes_chained(&mfs));
}

#[test]
fn public_outputs_do_not_depend_on_chunk_size() {
    let frames = run(6);
    for k in [1usize, 2, 4, 8] {
        let mfs = MultiFrame::from_frames(k, &frames);
        assert_eq!(mfs[mfs.len() - 1].output, frames[5].output);
        assert_eq!(mfs[0].input, frames[0].input);
    }
}

#[test]
fn public_input_layout() {
    let frames = run(3);
    let mfs = MultiFrame::from_frames(1, &frames);
    let inputs = mfs[1].public_inputs();
    assert_eq!(MultiFrame::public_input_size(), 19);
    assert_eq!(
        inputs,
        vec![4, 0, 0, 0, 0, 0, 4, 1, 0, 0, 0, 1, 4, 2, 0, 0, 0, 2, 1]
    );
    let last = mfs[2].public_inputs();
    assert_eq!(&last[12..18], &[4, 3, 0, 0, 12, 3]);
    assert_eq!(state(5, ContTag::Error).public_inputs(), vec![4, 5, 0, 0, 13, 5]);
}

#[test]
fn dummy_multiframe_stutters_on_terminal_state() {
    let frames = run(3);
    let d = MultiFrame::make_dummy(4, frames[0].input, frames[2]);
    assert_eq!(d.input, frames[2].output);
    assert_eq!(d.output, frames[2].output);
    assert_eq!(d.i, 3);
    let inner = d.frames.unwrap();
    assert_eq!(inner.len(), 4);
    assert!(inner.iter().all(|f| f.input == f.output));
    assert_eq!(inner[3].i, 6);
}

#[test]
fn padding_counts() {
    let p = Groth16Prover::new(2);
    assert_eq!(p.chunk_frame_count(), 2);
    assert_eq!(p.frame_padding_count(5), 1);
    assert!(p.needs_frame_padding(5));
    assert!(!p.needs_frame_padding(6));
    assert_eq!(p.multiframe_padding_count(1), 1);
    assert_eq!(p.multiframe_padding_count(2), 0);
    assert_eq!(p.multiframe_padding_count(3), 1);
    assert_eq!(p.multiframe_padding_count(5), 3);
    assert!(!p.needs_multiframe_padding(8));
    assert!(p.needs_multiframe_padding(0));
    // 17 steps give 18 frames, 9 multi-frames of 2, padded to 16.
    assert_eq!(p.expected_total_iterations(17), 16);
    let one = Groth16Prover::new(1);
    // 2 steps give 3 frames, padded to 4.
    assert_eq!(one.expected_total_iterations(2), 4);
    assert_eq!(one.expected_total_iterations(0), 2);
}

#[test]
fn powers_of_two() {
    assert!(is_power_of_two(1));
    assert!(is_power_of_two(64));
    assert!(!is_power_of_two(0));
    assert!(!is_power_of_two(12));
    assert_eq!(aggregation_size_of(0), 2);
    assert_eq!(aggregation_size_of(1), 2);
    assert_eq!(aggregation_size_of(2), 2);
    assert_eq!(aggregation_size_of(3), 4);
    assert_eq!(aggregation_size_of(9), 16);
    assert_eq!(aggregation_size_of(16), 16);
}

#[test]
fn statements_are_padded_to_a_power_of_two() {
    let mut statements = vec![vec![1u64], vec![2], vec![3]];
    pad_statements(&mut statements, &vec![9, 9]);
    assert_eq!(statements, vec![vec![1], vec![2], vec![3], vec![9, 9]]);
    let mut one = vec![vec![5u64]];
    pad_statements(&mut one, &vec![0]);
    assert_eq!(one, vec![vec![5], vec![0]]);
}

#[test]
fn aggregation_statements_for_a_run() {
    let frames = run(5);
    let p = Groth16Prover::new(2);
    let statements = p.aggregation_statements(&frames);
    assert_eq!(statements.len(), 4);
    let mfs = MultiFrame::from_frames(2, &frames);
    for j in 0..3 {
        assert_eq!(statements[j], mfs[j].public_inputs());
    }
    let dummy = &statements[3];
    assert_eq!(dummy.len(), 19);
    assert_eq!(&dummy[6..12], &frames[4].output.public_inputs()[..]);
    assert_eq!(&dummy[12..18], &frames[4].output.public_inputs()[..]);
    assert_eq!(dummy[18], 6);
}

#[test]
fn blank_circuit_frame() {
    let pool = Pool::default();
    let blank = CircuitFrame::blank(&pool);
    assert!(blank.input.is_none());
    assert!(blank.output.is_none());
    assert!(blank.initial.is_none());
    assert!(blank.i.is_none());
}

#[test]
fn significant_frames_exclude_trailing_stutters() {
    let mut frames = run(3);
    assert_eq!(Frame::significant_frame_count(&frames), 3);
    let last = frames[2];
    for t in 1..4 {
        frames.push(Frame { input: last.output, output: last.output, i: last.i + t });
    }
    assert_eq!(Frame::significant_frame_count(&frames), 3);
    assert!(frames[5].is_stutter());
    assert!(!frames[1].is_stutter());
    assert_eq!(Frame::significant_frame_count(&Vec::new()), 0);
    let same = Frame { input: state(1, ContTag::Outermost), output: state(1, ContTag::Outermost), i: 0 };
    assert!(!same.is_stutter());
    assert_eq!(Frame::significant_frame_count(&vec![frames[0], same]), 2);
}

#[test]
fn circuit_frame_inputs_follow_present_parts() {
    let pool = Pool::default();
    let mut frame = CircuitFrame::blank(&pool);
    assert!(frame.public_inputs().is_empty());
    frame.input = Some(state(1, ContTag::Outermost));
    frame.output = Some(state(2, ContTag::Terminal));
    frame.i = Some(9);
    assert_eq!(frame.public_inputs(), vec![4, 1, 0, 0, 0, 1, 4, 2, 0, 0, 12, 2, 9]);
    frame.initial = Some(state(0, ContTag::Outermost));
    assert_eq!(frame.public_inputs().len(), 19);
    assert_eq!(&frame.public_inputs()[0..6], &[4, 0, 0, 0, 0, 0]);
}
