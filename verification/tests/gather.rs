//! Gather programs.

use ryzr::fuse::NIL;
use ryzr::gather::{gather, plan_stream, FUNNEL_MIN, NOT_CONST};

#[test]
fn a_window_becomes_funnels_then_splats() {
    assert_eq!(FUNNEL_MIN, 3);
    let pos = vec![5, 6, 7, 8, 100, 30, NIL];
    let cval = vec![NOT_CONST, NOT_CONST, NOT_CONST, NOT_CONST, NOT_CONST, NOT_CONST, 1];
    // Three consecutive source bits, two scattered sources (one of them
    // twice), an absent operand, a constant, and a pair that is too short.
    let window = vec![0, 1, 2, 4, 5, 4, NIL, 6, 2, 3];
    let mut segs = Vec::new();
    let (imm, stream) = plan_stream(&window, &pos, &cval, &mut segs);
    assert_eq!(imm, 1 << 7);
    assert_eq!((stream.funnels, stream.splats), (1, 4));
    let parts: Vec<(u32, u8, u64)> = segs.iter().map(|s| (s.src, s.shift, s.mask)).collect();
    assert_eq!(
        parts,
        vec![
            (5, 0, 0b111),
            (7, 0, 1 << 8),
            (8, 0, 1 << 9),
            (30, 0, 1 << 4),
            (100, 0, 1 << 3 | 1 << 5),
        ]
    );

    // Bits 6, 8 and 100 of the arena are set.
    let bits = vec![1 << 6 | 1 << 8, 1 << 36, 0];
    let word = gather(&bits, &segs, 1, imm);
    assert_eq!(word, 1 << 1 | 1 << 3 | 1 << 5 | 1 << 7 | 1 << 9);
}

#[test]
fn programs_are_appended() {
    let pos = vec![0, 1, 2, 3];
    let cval = vec![NOT_CONST; 4];
    let mut segs = Vec::new();
    plan_stream(&vec![3], &pos, &cval, &mut segs);
    let (imm, stream) = plan_stream(&vec![0, 1, 2, 3], &pos, &cval, &mut segs);
    assert_eq!((imm, stream.funnels, stream.splats, segs.len()), (0, 1, 0, 2));
    assert_eq!((segs[1].src, segs[1].shift, segs[1].mask), (0, 0, 0b1111));
}

#[test]
fn a_window_needs_only_the_tables_it_reads() {
    // Slot 2 is a constant and has no position.
    let (pos, cval) = (vec![4, 5], vec![NOT_CONST, NOT_CONST, 1]);
    let mut segs = Vec::new();
    let (imm, stream) = plan_stream(&vec![2, 1, 0], &pos, &cval, &mut segs);
    assert_eq!((imm, stream.funnels, stream.splats), (1, 0, 2));
    assert_eq!(gather(&vec![1 << 4, 0], &segs, 0, imm), 0b101);

    // The last positions there are.
    let pos = vec![u32::MAX - 1, u32::MAX, 0];
    segs.clear();
    let (imm, stream) = plan_stream(&vec![0, 1, 2], &pos, &vec![NOT_CONST; 3], &mut segs);
    assert_eq!((imm, stream.funnels, stream.splats), (0, 0, 3));
    let sources: Vec<u32> = segs.iter().map(|s| s.src).collect();
    assert_eq!(sources, vec![0, u32::MAX - 1, u32::MAX]);
}
