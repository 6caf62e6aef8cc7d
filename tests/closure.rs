use yara_x::{decode_instr, epsilon_closure, CodeLoc, EpsilonClosureState, Instr};

// The compiler's expression tree is not part of this library; this size
// check guards the decoder's result instead, which is produced once per
// thread and input byte.
#[test]
fn expr_size() {
    assert_eq!(std::mem::size_of::<Option<(Instr, usize)>>(), 32);
}

#[test]
fn decode_reads_payloads() {
    let code = vec![7, 0xFE, 0xFF, 1, b'a', 9, 2, 3, 0, 0xFD, 0xFF];
    assert_eq!(decode_instr(&code, 0), Some((Instr::SplitA(-2), 3)));
    assert_eq!(decode_instr(&code, 3), Some((Instr::Byte(b'a'), 2)));
    assert_eq!(decode_instr(&code, 5), Some((Instr::SplitN { at: 7, count: 2 }, 6)));
    assert_eq!(decode_instr(&code, 11), None);
    assert_eq!(decode_instr(&[1], 0), None);
    assert_eq!(decode_instr(&[200], 0), None);
}

#[test]
fn closure_orders_split_branches() {
    // SplitA: fallthrough (3) first, then the offset target (5).
    let code = vec![7, 5, 0, 1, b'x', 1, b'y', 6];
    let mut state = EpsilonClosureState::new();
    let mut out = Vec::new();
    epsilon_closure(&code, CodeLoc::Forward(0), None, None, &mut state, &mut out);
    assert_eq!(out, vec![3, 5]);
    // SplitB: offset target first.
    let code = vec![8, 5, 0, 1, b'x', 1, b'y', 6];
    let mut out = Vec::new();
    epsilon_closure(&code, CodeLoc::Forward(0), None, None, &mut state, &mut out);
    assert_eq!(out, vec![5, 3]);
    // SplitN: listed order.
    let code = vec![9, 3, 10, 0, 8, 0, 12, 0, 1, b'a', 1, b'b', 1, b'c', 6];
    let mut out = Vec::new();
    epsilon_closure(&code, CodeLoc::Forward(0), None, None, &mut state, &mut out);
    assert_eq!(out, vec![10, 8, 12]);
}

#[test]
fn closure_skips_offsets_already_present() {
    let code = vec![7, 5, 0, 1, b'x', 1, b'y', 6];
    let mut state = EpsilonClosureState::new();
    let mut out = vec![5];
    epsilon_closure(&code, CodeLoc::Forward(0), None, None, &mut state, &mut out);
    assert_eq!(out, vec![5, 3]);
}

#[test]
fn closure_terminates_on_epsilon_cycles() {
    // A split whose both branches lead back to itself through a jump, and a
    // jump to itself.
    let code = vec![7, 6, 0, 10, 0xFD, 0xFF, 10, 0, 0];
    let mut state = EpsilonClosureState::new();
    let mut out = Vec::new();
    epsilon_closure(&code, CodeLoc::Forward(0), None, None, &mut state, &mut out);
    assert!(out.is_empty());
    // The state can be used again.
    let code = vec![10, 3, 0, 6];
    epsilon_closure(&code, CodeLoc::Forward(0), None, None, &mut state, &mut out);
    assert_eq!(out, vec![3]);
}

#[test]
fn word_boundary_law_on_pairs() {
    let wb = vec![13, 6];
    let nwb = vec![14, 6];
    let bytes: Vec<Option<u8>> = vec![None, Some(b'a'), Some(b'Z'), Some(b'5'), Some(b' '), Some(b'_'), Some(b'-')];
    let word = |b: Option<u8>| matches!(b, Some(x) if x.is_ascii_alphanumeric());
    let mut state = EpsilonClosureState::new();
    for &prev in &bytes {
        for &curr in &bytes {
            let mut out = Vec::new();
            epsilon_closure(&wb, CodeLoc::Forward(0), curr, prev, &mut state, &mut out);
            assert_eq!(!out.is_empty(), word(prev) != word(curr));
            let mut out = Vec::new();
            epsilon_closure(&nwb, CodeLoc::Forward(0), curr, prev, &mut state, &mut out);
            assert_eq!(!out.is_empty(), word(prev) == word(curr));
        }
    }
}

#[test]
fn anchors_follow_direction() {
    let start = vec![11, 6];
    let end = vec![12, 6];
    let mut state = EpsilonClosureState::new();
    let cases: Vec<(Option<u8>, Option<u8>)> = vec![(None, None), (Some(b'a'), None), (None, Some(b'a')), (Some(b'a'), Some(b'b'))];
    for (curr, prev) in cases {
        for backwards in [false, true] {
            let loc = if backwards { CodeLoc::Backward(0) } else { CodeLoc::Forward(0) };
            let mut out = Vec::new();
            epsilon_closure(&start, loc, curr, prev, &mut state, &mut out);
            let origin = if backwards { curr.is_none() } else { prev.is_none() };
            assert_eq!(out == vec![1], origin);
            let mut out = Vec::new();
            epsilon_closure(&end, loc, curr, prev, &mut state, &mut out);
            let terminus = if backwards { prev.is_none() } else { curr.is_none() };
            assert_eq!(out == vec![1], terminus);
        }
    }
}

#[test]
fn code_loc_keeps_direction() {
    let f = CodeLoc::Forward(3);
    let b = CodeLoc::Backward(4);
    assert_eq!(f.offset(), 3);
    assert!(!f.backwards());
    assert_eq!(b.offset(), 4);
    assert!(b.backwards());
    assert_eq!(f.with_offset(9), CodeLoc::Forward(9));
    assert_eq!(b.with_offset(9), CodeLoc::Backward(9));
}
