use yara_x::{CodeLoc, MatchCollector, PikeVM, DEFAULT_SCAN_LIMIT};

fn off(o: i16) -> [u8; 2] {
    o.to_le_bytes()
}

// `a`
fn prog_a() -> Vec<u8> {
    vec![1, b'a', 6]
}

// `a*`: split (fallthrough into the loop body first), `a`, jump back, match.
fn prog_a_star() -> Vec<u8> {
    let mut p = vec![7];
    p.extend_from_slice(&off(8));
    p.extend_from_slice(&[1, b'a', 10]);
    p.extend_from_slice(&off(-5));
    p.push(6);
    p
}

// `foo.*bar`
fn prog_foo_any_bar() -> Vec<u8> {
    let mut p = vec![1, b'f', 1, b'o', 1, b'o', 7];
    p.extend_from_slice(&off(7));
    p.extend_from_slice(&[0, 10]);
    p.extend_from_slice(&off(-4));
    p.extend_from_slice(&[1, b'b', 1, b'a', 1, b'r', 6]);
    p
}

// `\bcat\b`
fn prog_word_cat() -> Vec<u8> {
    vec![13, 1, b'c', 1, b'a', 1, b't', 13, 6]
}

// `^abc`
fn prog_anchored_abc() -> Vec<u8> {
    vec![11, 1, b'a', 1, b'b', 1, b'c', 6]
}

// `(a|ab)`, with `a` as the fallthrough of the split.
fn prog_a_or_ab() -> Vec<u8> {
    let mut p = vec![7];
    p.extend_from_slice(&off(8));
    p.extend_from_slice(&[1, b'a', 10]);
    p.extend_from_slice(&off(7));
    p.extend_from_slice(&[1, b'a', 1, b'b', 6]);
    p
}

fn run(code: &[u8], limit: Option<usize>, fwd: &[u8], bck: &[u8], sink: &mut MatchCollector) -> (Vec<usize>, bool) {
    let vm = PikeVM::new(code);
    let mut vm = match limit {
        Some(l) => vm.scan_limit(l),
        None => vm,
    };
    vm.try_match(CodeLoc::Forward(0), fwd, bck, sink)
}

#[test]
fn single_byte_matches_once() {
    let code = prog_a();
    let mut sink = MatchCollector::new(usize::MAX);
    let (r, stopped) = run(&code, None, b"a", b"", &mut sink);
    assert_eq!(r, vec![1]);
    assert_eq!(*sink.lengths(), vec![1]);
    assert!(!stopped);
}

#[test]
fn star_reports_every_length() {
    let code = prog_a_star();
    let mut sink = MatchCollector::new(usize::MAX);
    let (r, _) = run(&code, None, b"aaab", b"", &mut sink);
    assert_eq!(r, vec![0, 1, 2, 3]);
    assert_eq!(*sink.lengths(), vec![0, 1, 2, 3]);
}

#[test]
fn scan_limit_aborts_unbounded_pattern() {
    let code = prog_foo_any_bar();
    let mut input = b"foo".to_vec();
    input.extend(std::iter::repeat(b'x').take(100));
    input.extend_from_slice(b"bar");
    let mut sink = MatchCollector::new(usize::MAX);
    let (r, _) = run(&code, Some(16), &input, b"", &mut sink);
    assert!(r.is_empty());
    assert!(sink.lengths().is_empty());
    // Without the limit in the way the same program matches.
    let mut sink = MatchCollector::new(usize::MAX);
    let (r, _) = run(&code, None, &input, b"", &mut sink);
    assert_eq!(r, vec![106]);
}

#[test]
fn word_boundaries_around_cat() {
    let code = prog_word_cat();
    let input = b"cat cats";
    let mut found = Vec::new();
    for origin in 0..input.len() {
        let bck: Vec<u8> = input[..origin].iter().rev().copied().collect();
        let mut sink = MatchCollector::new(usize::MAX);
        let (r, _) = run(&code, None, &input[origin..], &bck, &mut sink);
        for len in r {
            found.push((origin, len));
        }
    }
    assert_eq!(found, vec![(0, 3)]);
}

#[test]
fn start_anchor_needs_scan_origin() {
    let code = prog_anchored_abc();
    let mut sink = MatchCollector::new(usize::MAX);
    let (r, _) = run(&code, None, b"abc", b"", &mut sink);
    assert_eq!(r, vec![3]);
    let mut sink = MatchCollector::new(usize::MAX);
    let (r, _) = run(&code, None, b"abc", b"x", &mut sink);
    assert!(r.is_empty());
}

#[test]
fn alternation_prefers_fallthrough() {
    let code = prog_a_or_ab();
    let mut sink = MatchCollector::new(usize::MAX);
    let (r, stopped) = run(&code, None, b"ab", b"", &mut sink);
    assert_eq!(r, vec![1, 2]);
    assert!(!stopped);
}

#[test]
fn stop_ends_the_scan() {
    let code = prog_a_or_ab();
    let mut sink = MatchCollector::new(1);
    let (r, stopped) = run(&code, None, b"ab", b"", &mut sink);
    assert_eq!(r, vec![1]);
    assert_eq!(*sink.lengths(), vec![1]);
    assert!(stopped);

    let code = prog_a_star();
    let mut sink = MatchCollector::new(2);
    let (r, stopped) = run(&code, None, b"aaaa", b"", &mut sink);
    assert_eq!(r, vec![0, 1]);
    assert_eq!(*sink.lengths(), vec![0, 1]);
    assert!(stopped);
}

#[test]
fn scan_limit_counts_bytes() {
    let code = prog_a_star();
    let mut sink = MatchCollector::new(usize::MAX);
    let (r, _) = run(&code, Some(2), b"aaaa", b"", &mut sink);
    assert_eq!(r, vec![0, 1]);
    let mut sink = MatchCollector::new(usize::MAX);
    let (r, _) = run(&code, Some(0), b"aaaa", b"", &mut sink);
    assert_eq!(r, vec![0]);
}

#[test]
fn default_scan_limit_is_4096() {
    assert_eq!(DEFAULT_SCAN_LIMIT, 4096);
    let code = prog_a_star();
    let input = vec![b'a'; 5000];
    let mut sink = MatchCollector::new(usize::MAX);
    let (r, _) = run(&code, None, &input, b"", &mut sink);
    assert_eq!(r.len(), 4096);
    assert_eq!(r[4095], 4095);
}

#[test]
fn vm_is_reusable_after_a_scan() {
    let code = prog_a_star();
    let mut vm = PikeVM::new(&code);
    let mut sink = MatchCollector::new(1);
    let (r, _) = vm.try_match(CodeLoc::Forward(0), b"aa", b"", &mut sink);
    assert_eq!(r, vec![0]);
    let mut sink = MatchCollector::new(usize::MAX);
    let (r, _) = vm.try_match(CodeLoc::Forward(0), b"aa", b"", &mut sink);
    assert_eq!(r, vec![0, 1, 2]);
}

#[test]
fn end_anchor_and_empty_input() {
    // `a$`
    let code = vec![1, b'a', 12, 6];
    let mut sink = MatchCollector::new(usize::MAX);
    let (r, _) = run(&code, None, b"a", b"", &mut sink);
    assert_eq!(r, vec![1]);
    let mut sink = MatchCollector::new(usize::MAX);
    let (r, _) = run(&code, None, b"ab", b"", &mut sink);
    assert!(r.is_empty());
    // `^$` on empty input matches with length zero.
    let code = vec![11, 12, 6];
    let mut sink = MatchCollector::new(usize::MAX);
    let (r, _) = run(&code, None, b"", b"", &mut sink);
    assert_eq!(r, vec![0]);
}

#[test]
fn byte_classes() {
    // [a-c] as ranges, then a bitmap holding only 'z', then masked byte, then case-insensitive 'q'.
    let mut code = vec![5, 1, b'a', b'c', 4];
    let mut bitmap = [0u8; 32];
    bitmap[(b'z' / 8) as usize] |= 1 << (b'z' % 8);
    code.extend_from_slice(&bitmap);
    code.extend_from_slice(&[2, 0x40, 0xF0, 3, b'q', 6]);
    let mut sink = MatchCollector::new(usize::MAX);
    let (r, _) = run(&code, None, b"bzAQ", b"", &mut sink);
    assert_eq!(r, vec![4]);
    let mut sink = MatchCollector::new(usize::MAX);
    let (r, _) = run(&code, None, b"dzAQ", b"", &mut sink);
    assert!(r.is_empty());
    let mut sink = MatchCollector::new(usize::MAX);
    let (r, _) = run(&code, None, b"byAQ", b"", &mut sink);
    assert!(r.is_empty());
    let mut sink = MatchCollector::new(usize::MAX);
    let (r, _) = run(&code, None, b"bz\x50q", b"", &mut sink);
    assert!(r.is_empty());
}

#[test]
fn backward_scan_swaps_anchors() {
    // A backward `Start`: fires when no byte lies ahead in the scan direction.
    let code = vec![11, 6];
    let mut sink = MatchCollector::new(usize::MAX);
    let mut vm = PikeVM::new(&code);
    let (r, _) = vm.try_match(CodeLoc::Backward(0), b"", b"x", &mut sink);
    assert_eq!(r, vec![0]);
    let mut sink = MatchCollector::new(usize::MAX);
    let (r, _) = vm.try_match(CodeLoc::Backward(0), b"y", b"", &mut sink);
    assert!(r.is_empty());
}

#[test]
fn collector_log_follows_answers() {
    let code = prog_a_star();
    let mut sink = MatchCollector::new(3);
    let (r, stopped) = run(&code, None, b"aaaaa", b"", &mut sink);
    assert_eq!(r, vec![0, 1, 2]);
    assert_eq!(*sink.lengths(), vec![0, 1, 2]);
    assert!(stopped);
}
