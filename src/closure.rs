//! Epsilon closure: the byte-consuming states reachable from a location
//! without reading input.
use vstd::prelude::*;

use crate::code_loc::CodeLoc;
use crate::instr::{
    decode, decode_instr, is_epsilon_instr, is_thread_instr, lemma_decode_in_bounds, read_i16,
    read_i16_at, Instr,
};

verus! {

/// ASCII letters and digits are word bytes.
pub open spec fn is_word_byte(b: u8) -> bool {
    (48 <= b <= 57) || (65 <= b <= 90) || (97 <= b <= 122)
}

/// Word-ness of an optional byte: a missing byte is not a word byte.
pub open spec fn is_word(b: Option<u8>) -> bool {
    match b {
        Some(x) => is_word_byte(x),
        None => false,
    }
}

/// The position is the origin of the scan: the byte behind it, in the
/// direction of the scan, is missing.
pub open spec fn at_origin(backwards: bool, curr: Option<u8>, prev: Option<u8>) -> bool {
    if backwards { curr is None } else { prev is None }
}

/// The position is the end of the scan: the byte ahead of it, in the
/// direction of the scan, is missing.
pub open spec fn at_terminus(backwards: bool, curr: Option<u8>, prev: Option<u8>) -> bool {
    if backwards { prev is None } else { curr is None }
}

/// Pushes `t` onto `stack` where it is an offset inside a program of `len`
/// bytes; a target outside the program is dropped.
pub open spec fn push_target(stack: Seq<usize>, t: int, len: int) -> Seq<usize> {
    if 0 <= t < len { stack.push(t as usize) } else { stack }
}

/// Pushes the targets of the first `j` offsets of a `SplitN` table at `at`,
/// last one first, so that the first listed target ends on top.
pub open spec fn push_split_n(stack: Seq<usize>, code: Seq<u8>, ip: int, at: int, j: int) -> Seq<usize>
    decreases j,
{
    if j <= 0 {
        stack
    } else {
        push_split_n(
            push_target(stack, ip + read_i16(code, at + 2 * (j - 1)), code.len() as int),
            code,
            ip,
            at,
            j - 1,
        )
    }
}

/// The stack after the epsilon instruction `instr` of `size` bytes at `ip`
/// runs: its successors are pushed so that the one to be explored first is
/// on top.
pub open spec fn expand(
    code: Seq<u8>,
    ip: int,
    instr: Instr,
    size: int,
    backwards: bool,
    curr: Option<u8>,
    prev: Option<u8>,
    stack: Seq<usize>,
) -> Seq<usize> {
    let len = code.len() as int;
    let next = ip + size;
    match instr {
        Instr::SplitA(o) => push_target(push_target(stack, ip + o, len), next, len),
        Instr::SplitB(o) => push_target(push_target(stack, next, len), ip + o, len),
        Instr::SplitN { at, count } => push_split_n(stack, code, ip, at as int, count as int),
        Instr::Jump(o) => push_target(stack, ip + o, len),
        Instr::Start => if at_origin(backwards, curr, prev) {
            push_target(stack, next, len)
        } else {
            stack
        },
        Instr::End => if at_terminus(backwards, curr, prev) {
            push_target(stack, next, len)
        } else {
            stack
        },
        Instr::WordBoundary => if is_word(prev) != is_word(curr) {
            push_target(stack, next, len)
        } else {
            stack
        },
        Instr::WordBoundaryNeg => if is_word(prev) == is_word(curr) {
            push_target(stack, next, len)
        } else {
            stack
        },
        _ => stack,
    }
}

/// The closure computation from a pending `stack`, the epsilon
/// instructions already `visited` in this call and the output so far.
///
/// The top of the stack is taken. A thread instruction is appended to the
/// output unless it is there already; an epsilon instruction not visited
/// yet is marked and expanded; anything else (`Eoi`, an instruction visited
/// before, an offset that does not decode) is dropped.
pub open spec fn closure_run(
    code: Seq<u8>,
    backwards: bool,
    curr: Option<u8>,
    prev: Option<u8>,
    stack: Seq<usize>,
    visited: Seq<usize>,
    out: Seq<usize>,
) -> Seq<usize>
    decreases code.len() - visited.len(), stack.len(),
{
    if stack.len() == 0 {
        out
    } else {
        let ip = stack.last();
        let rest = stack.drop_last();
        match decode(code, ip as int) {
            Some((instr, size)) => {
                if is_thread_instr(instr) {
                    let out2 = if out.contains(ip) { out } else { out.push(ip) };
                    closure_run(code, backwards, curr, prev, rest, visited, out2)
                } else if is_epsilon_instr(instr) && !visited.contains(ip) && visited.len()
                    < code.len() {
                    closure_run(
                        code,
                        backwards,
                        curr,
                        prev,
                        expand(code, ip as int, instr, size as int, backwards, curr, prev, rest),
                        visited.push(ip),
                        out,
                    )
                } else {
                    closure_run(code, backwards, curr, prev, rest, visited, out)
                }
            },
            None => closure_run(code, backwards, curr, prev, rest, visited, out),
        }
    }
}

/// `out` extended with the epsilon closure of `start`, where `curr` is the
/// byte at the current position and `prev` the one before it.
pub open spec fn closure_of(
    code: Seq<u8>,
    start: CodeLoc,
    curr: Option<u8>,
    prev: Option<u8>,
    out: Seq<usize>,
) -> Seq<usize> {
    closure_run(code, start.backwards(), curr, prev, seq![start.offset()], seq![], out)
}

/// The offset at `ip` decodes to a thread instruction.
pub open spec fn is_thread_at(code: Seq<u8>, ip: usize) -> bool {
    decode(code, ip as int) is Some && is_thread_instr(decode(code, ip as int).unwrap().0)
}

/// What a closure computation adds to its output: it only appends, what it
/// appends are thread instructions, and it never appends an offset twice.
pub proof fn lemma_closure_run_appends(
    code: Seq<u8>,
    backwards: bool,
    curr: Option<u8>,
    prev: Option<u8>,
    stack: Seq<usize>,
    visited: Seq<usize>,
    out: Seq<usize>,
)
    ensures
        out.is_prefix_of(closure_run(code, backwards, curr, prev, stack, visited, out)),
        forall|k: int|
            out.len() <= k < closure_run(code, backwards, curr, prev, stack, visited, out).len()
                ==> is_thread_at(
                code,
                #[trigger] closure_run(code, backwards, curr, prev, stack, visited, out)[k],
            ),
        out.no_duplicates() ==> closure_run(
            code,
            backwards,
            curr,
            prev,
            stack,
            visited,
            out,
        ).no_duplicates(),
    decreases code.len() - visited.len(), stack.len(),
{
    if stack.len() > 0 {
        let ip = stack.last();
        let rest = stack.drop_last();
        match decode(code, ip as int) {
            Some((instr, size)) => {
                if is_thread_instr(instr) {
                    let out2 = if out.contains(ip) { out } else { out.push(ip) };
                    lemma_closure_run_appends(code, backwards, curr, prev, rest, visited, out2);
                    let r = closure_run(code, backwards, curr, prev, rest, visited, out2);
                    assert forall|k: int| out.len() <= k < r.len() implies is_thread_at(
                        code,
                        #[trigger] r[k],
                    ) by {
                        if k < out2.len() {
                            assert(r[k] == r.subrange(0, out2.len() as int)[k]);
                        }
                    }
                    if out.no_duplicates() && !out.contains(ip) {
                        assert forall|i: int, j: int|
                            0 <= i < out2.len() && 0 <= j < out2.len() && i != j implies out2[i]
                            != out2[j] by {
                            if i == out.len() {
                                assert(out.contains(out2[j]) || out2[j] != ip);
                            }
                            if j == out.len() {
                                assert(out.contains(out2[i]) || out2[i] != ip);
                            }
                        }
                    }
                } else if is_epsilon_instr(instr) && !visited.contains(ip) && visited.len()
                    < code.len() {
                    lemma_closure_run_appends(
                        code,
                        backwards,
                        curr,
                        prev,
                        expand(code, ip as int, instr, size as int, backwards, curr, prev, rest),
                        visited.push(ip),
                        out,
                    );
                } else {
                    lemma_closure_run_appends(code, backwards, curr, prev, rest, visited, out);
                }
            },
            None => {
                lemma_closure_run_appends(code, backwards, curr, prev, rest, visited, out);
            },
        }
    }
}

/// A closure computation over a stack that holds only distinct thread
/// instructions, none of them in the output yet, appends them in the order
/// in which they are popped.
proof fn lemma_run_threads_only(
    code: Seq<u8>,
    backwards: bool,
    curr: Option<u8>,
    prev: Option<u8>,
    stack: Seq<usize>,
    visited: Seq<usize>,
    out: Seq<usize>,
)
    requires
        forall|i: int| 0 <= i < stack.len() ==> is_thread_at(code, #[trigger] stack[i]),
        stack.no_duplicates(),
        forall|i: int| 0 <= i < stack.len() ==> !out.contains(#[trigger] stack[i]),
    ensures
        closure_run(code, backwards, curr, prev, stack, visited, out) == out + stack.reverse(),
    decreases stack.len(),
{
    if stack.len() == 0 {
        assert(out + stack.reverse() =~= out);
    } else {
        let ip = stack.last();
        let rest = stack.drop_last();
        assert(is_thread_at(code, stack[stack.len() - 1]));
        assert(!out.contains(stack[stack.len() - 1]));
        let out2 = out.push(ip);
        assert forall|i: int| 0 <= i < rest.len() implies !out2.contains(#[trigger] rest[i]) by {
            assert(rest[i] == stack[i]);
            assert(!out.contains(stack[i]));
            if out2.contains(rest[i]) {
                let k = choose|k: int| 0 <= k < out2.len() && out2[k] == rest[i];
                if k < out.len() {
                    assert(out[k] == rest[i]);
                } else {
                    assert(stack[i] == stack[stack.len() - 1]);
                }
            }
        }
        assert forall|i: int| 0 <= i < rest.len() implies is_thread_at(code, #[trigger] rest[i]) by {
            assert(rest[i] == stack[i]);
        }
        assert forall|i: int, j: int| 0 <= i < rest.len() && 0 <= j < rest.len() && i != j implies rest[i]
            != rest[j] by {
            assert(rest[i] == stack[i] && rest[j] == stack[j]);
        }
        lemma_run_threads_only(code, backwards, curr, prev, rest, visited, out2);
        assert(out2 + rest.reverse() =~= out + stack.reverse());
    }
}

/// The fallthrough of a zero-width assertion at `loc`, where it leads
/// straight to a thread instruction: the closure of `loc` is that
/// instruction where the assertion holds, and nothing otherwise.
proof fn lemma_assertion_closure(code: Seq<u8>, loc: CodeLoc, curr: Option<u8>, prev: Option<u8>, holds: bool)
    requires
        decode(code, loc.offset() as int) matches Some((i, s)) && s == 1 && (i is Start || i is End
            || i is WordBoundary || i is WordBoundaryNeg),
        code.len() <= usize::MAX,
        is_thread_at(code, (loc.offset() + 1) as usize),
        holds == match decode(code, loc.offset() as int).unwrap().0 {
            Instr::Start => at_origin(loc.backwards(), curr, prev),
            Instr::End => at_terminus(loc.backwards(), curr, prev),
            Instr::WordBoundary => is_word(prev) != is_word(curr),
            _ => is_word(prev) == is_word(curr),
        },
    ensures
        closure_of(code, loc, curr, prev, seq![]) == if holds {
            seq![(loc.offset() + 1) as usize]
        } else {
            Seq::<usize>::empty()
        },
{
    let off = loc.offset();
    let next = (off + 1) as usize;
    lemma_decode_in_bounds(code, next as int);
    let st = if holds { seq![next] } else { Seq::<usize>::empty() };
    assert(seq![off].drop_last() =~= Seq::<usize>::empty());
    assert(expand(code, off as int, decode(code, off as int).unwrap().0, 1, loc.backwards(), curr, prev, Seq::empty()) =~= st);
    assert(closure_run(code, loc.backwards(), curr, prev, seq![off], seq![], seq![])
        == closure_run(code, loc.backwards(), curr, prev, st, seq![off], seq![]));
    lemma_run_threads_only(code, loc.backwards(), curr, prev, st, seq![off], seq![]);
    assert(Seq::<usize>::empty() + st.reverse() =~= st);
}

/// Anchors: at a `Start` the thread goes on exactly when the scan is at its
/// origin (no byte before the position in the direction of the scan), and
/// at an `End` exactly when it is at its end (no byte ahead); a backward
/// scan swaps the two sides.
pub proof fn lemma_anchor_law(code: Seq<u8>, loc: CodeLoc, curr: Option<u8>, prev: Option<u8>)
    requires
        decode(code, loc.offset() as int) matches Some((i, _)) && (i is Start || i is End),
        code.len() <= usize::MAX,
        is_thread_at(code, (loc.offset() + 1) as usize),
    ensures
        decode(code, loc.offset() as int).unwrap().0 is Start ==> closure_of(code, loc, curr, prev, seq![])
            == if (if loc.backwards() { curr is None } else { prev is None }) {
            seq![(loc.offset() + 1) as usize]
        } else {
            Seq::<usize>::empty()
        },
        decode(code, loc.offset() as int).unwrap().0 is End ==> closure_of(code, loc, curr, prev, seq![])
            == if (if loc.backwards() { prev is None } else { curr is None }) {
            seq![(loc.offset() + 1) as usize]
        } else {
            Seq::<usize>::empty()
        },
{
    let i = decode(code, loc.offset() as int).unwrap().0;
    let holds = if i is Start { at_origin(loc.backwards(), curr, prev) } else { at_terminus(loc.backwards(), curr, prev) };
    lemma_assertion_closure(code, loc, curr, prev, holds);
}

/// Word boundaries: a `WordBoundary` lets the thread go on exactly when one
/// of the two bytes around the position is an ASCII letter or digit and the
/// other is not (a missing byte counts as not), and `WordBoundaryNeg`
/// exactly when that is not the case.
pub proof fn lemma_word_boundary_law(code: Seq<u8>, loc: CodeLoc, curr: Option<u8>, prev: Option<u8>)
    requires
        decode(code, loc.offset() as int) matches Some((i, _)) && (i is WordBoundary || i is WordBoundaryNeg),
        code.len() <= usize::MAX,
        is_thread_at(code, (loc.offset() + 1) as usize),
    ensures
        decode(code, loc.offset() as int).unwrap().0 is WordBoundary ==> closure_of(code, loc, curr, prev, seq![])
            == if is_word(prev) != is_word(curr) {
            seq![(loc.offset() + 1) as usize]
        } else {
            Seq::<usize>::empty()
        },
        decode(code, loc.offset() as int).unwrap().0 is WordBoundaryNeg ==> closure_of(code, loc, curr, prev, seq![])
            == if is_word(prev) == is_word(curr) {
            seq![(loc.offset() + 1) as usize]
        } else {
            Seq::<usize>::empty()
        },
{
    let i = decode(code, loc.offset() as int).unwrap().0;
    let holds = if i is WordBoundary { is_word(prev) != is_word(curr) } else { is_word(prev) == is_word(curr) };
    lemma_assertion_closure(code, loc, curr, prev, holds);
}

/// The targets of the `count` offsets of a `SplitN` table at `at`, for the
/// instruction at `ip`, in listed order.
pub open spec fn split_n_targets(code: Seq<u8>, ip: int, at: int, count: int) -> Seq<int> {
    Seq::new(count as nat, |k: int| ip + read_i16(code, at + 2 * k))
}

proof fn lemma_push_split_n(stack: Seq<usize>, code: Seq<u8>, ip: int, at: int, j: int)
    requires
        0 <= j,
        forall|k: int| 0 <= k < j ==> 0 <= #[trigger] split_n_targets(code, ip, at, j)[k] < code.len(),
    ensures
        push_split_n(stack, code, ip, at, j) == stack + Seq::new(
            j as nat,
            |k: int| split_n_targets(code, ip, at, j)[j - 1 - k] as usize,
        ),
    decreases j,
{
    let t = split_n_targets(code, ip, at, j);
    if j == 0 {
        assert(stack + Seq::new(0, |k: int| t[j - 1 - k] as usize) =~= stack);
    } else {
        let t2 = split_n_targets(code, ip, at, j - 1);
        assert forall|k: int| 0 <= k < j - 1 implies 0 <= #[trigger] t2[k] < code.len() by {
            assert(t2[k] == t[k]);
        }
        assert(0 <= t[j - 1] < code.len());
        let s2 = push_target(stack, ip + read_i16(code, at + 2 * (j - 1)), code.len() as int);
        assert(s2 == stack.push(t[j - 1] as usize));
        lemma_push_split_n(s2, code, ip, at, j - 1);
        assert(s2 + Seq::new((j - 1) as nat, |k: int| t2[j - 2 - k] as usize) =~= stack + Seq::new(
            j as nat,
            |k: int| t[j - 1 - k] as usize,
        ));
    }
}

/// The targets of the split instruction at `ip`, in the order in which its
/// branches are tried: `SplitA` tries its fallthrough first and its offset
/// second, `SplitB` the other way round, and `SplitN` its offsets in listed
/// order.
pub open spec fn split_targets(code: Seq<u8>, ip: int) -> Seq<int> {
    match decode(code, ip) {
        Some((Instr::SplitA(o), size)) => seq![ip + size, ip + o],
        Some((Instr::SplitB(o), size)) => seq![ip + o, ip + size],
        Some((Instr::SplitN { at, count }, _)) => split_n_targets(code, ip, at as int, count as int),
        _ => Seq::empty(),
    }
}

/// Alternation priority: where every branch of a split leads straight to
/// its own thread instruction not yet in the output, the closure appends
/// those instructions in the order in which the branches are tried.
pub proof fn lemma_split_priority(
    code: Seq<u8>,
    loc: CodeLoc,
    curr: Option<u8>,
    prev: Option<u8>,
    out: Seq<usize>,
)
    requires
        code.len() <= usize::MAX,
        decode(code, loc.offset() as int) matches Some((i, _)) && (i is SplitA || i is SplitB
            || i is SplitN),
        forall|k: int|
            0 <= k < split_targets(code, loc.offset() as int).len() ==> 0 <= #[trigger] split_targets(
                code,
                loc.offset() as int,
            )[k] < code.len() && is_thread_at(code, split_targets(code, loc.offset() as int)[k] as usize),
        split_targets(code, loc.offset() as int).no_duplicates(),
        forall|k: int|
            0 <= k < split_targets(code, loc.offset() as int).len() ==> !out.contains(
                #[trigger] split_targets(code, loc.offset() as int)[k] as usize,
            ),
    ensures
        closure_of(code, loc, curr, prev, out) == out + split_targets(code, loc.offset() as int).map_values(
            |t: int| t as usize,
        ),
{
    let (i, size) = decode(code, loc.offset() as int).unwrap();
    let off = loc.offset();
    let ip = off as int;
    let targets = split_targets(code, ip);
    let want = targets.map_values(|t: int| t as usize);
    let st = want.reverse();
    assert(seq![off].drop_last() =~= Seq::<usize>::empty());
    match i {
        Instr::SplitN { at, count } => {
            assert forall|k: int| 0 <= k < count implies 0 <= #[trigger] split_n_targets(code, ip, at as int, count as int)[k] < code.len() by {
                assert(targets[k] == split_n_targets(code, ip, at as int, count as int)[k]);
            }
            lemma_push_split_n(Seq::empty(), code, ip, at as int, count as int);
            assert(expand(code, ip, i, size as int, loc.backwards(), curr, prev, Seq::empty()) =~= st);
        },
        _ => {
            assert(0 <= targets[0] < code.len());
            assert(0 <= targets[1] < code.len());
            assert(expand(code, ip, i, size as int, loc.backwards(), curr, prev, Seq::empty()) =~= st);
        },
    }
    assert(closure_run(code, loc.backwards(), curr, prev, seq![off], seq![], out)
        == closure_run(code, loc.backwards(), curr, prev, st, seq![off], out));
    assert forall|k: int| 0 <= k < st.len() implies is_thread_at(code, #[trigger] st[k]) by {
        assert(st[k] == want[want.len() - 1 - k]);
        assert(0 <= targets[want.len() - 1 - k] < code.len());
    }
    assert forall|a: int, b: int| 0 <= a < st.len() && 0 <= b < st.len() && a != b implies st[a]
        != st[b] by {
        let a2 = want.len() - 1 - a;
        let b2 = want.len() - 1 - b;
        assert(targets[a2] != targets[b2]);
        assert(0 <= targets[a2] < code.len() && 0 <= targets[b2] < code.len());
    }
    assert forall|k: int| 0 <= k < st.len() implies !out.contains(#[trigger] st[k]) by {
        assert(st[k] == want[want.len() - 1 - k]);
        assert(!out.contains(targets[want.len() - 1 - k] as usize));
    }
    lemma_run_threads_only(code, loc.backwards(), curr, prev, st, seq![off], out);
    assert(st.reverse() =~= want);
}

/// Every successor of the instruction at `ip` lies in `s`: the targets of
/// jumps and splits, and the next instruction of everything that goes on
/// (thread instructions and assertions). `ip` itself must decode.
#[verifier::opaque]
pub open spec fn successors_within(code: Seq<u8>, ip: int, s: Set<int>) -> bool {
    match decode(code, ip) {
        None => false,
        Some((i, size)) => match i {
            Instr::SplitA(o) => s.contains(ip + o) && s.contains(ip + size),
            Instr::SplitB(o) => s.contains(ip + o) && s.contains(ip + size),
            Instr::Jump(o) => s.contains(ip + o),
            Instr::SplitN { at, count } => forall|k: int|
                0 <= k < count ==> s.contains(#[trigger] read_i16(code, at + 2 * k) + ip),
            Instr::Match | Instr::Eoi => true,
            _ => s.contains(ip + size),
        },
    }
}

/// `s` is a set of instruction starts closed under successors: each of
/// them decodes, and control never leaves the set.
pub open spec fn closed_code(code: Seq<u8>, s: Set<int>) -> bool {
    forall|ip: int| #[trigger] s.contains(ip) ==> successors_within(code, ip, s)
}

/// The program is well formed from `ip`: the instructions reachable from
/// it all decode and all their targets lie inside the program.
pub open spec fn well_formed_from(code: Seq<u8>, ip: int) -> bool {
    exists|s: Set<int>| closed_code(code, s) && #[trigger] s.contains(ip)
}

proof fn lemma_push_split_n_within(stack: Seq<usize>, code: Seq<u8>, ip: int, at: int, j: int, s: Set<int>)
    requires
        code.len() <= usize::MAX,
        forall|i: int| 0 <= i < stack.len() ==> s.contains(#[trigger] stack[i] as int),
        forall|k: int| 0 <= k < j ==> s.contains(#[trigger] read_i16(code, at + 2 * k) + ip),
    ensures
        forall|i: int|
            0 <= i < push_split_n(stack, code, ip, at, j).len() ==> s.contains(
                #[trigger] push_split_n(stack, code, ip, at, j)[i] as int,
            ),
    decreases j,
{
    if j > 0 {
        let t = ip + read_i16(code, at + 2 * (j - 1));
        assert(s.contains(read_i16(code, at + 2 * (j - 1)) + ip));
        let st2 = push_target(stack, t, code.len() as int);
        assert forall|i: int| 0 <= i < st2.len() implies s.contains(#[trigger] st2[i] as int) by {
            if i < stack.len() {
                assert(st2[i] == stack[i]);
            }
        }
        lemma_push_split_n_within(st2, code, ip, at, j - 1, s);
        assert(push_split_n(stack, code, ip, at, j) == push_split_n(st2, code, ip, at, j - 1));
    }
}

proof fn lemma_expand_within(
    code: Seq<u8>,
    ip: int,
    backwards: bool,
    curr: Option<u8>,
    prev: Option<u8>,
    stack: Seq<usize>,
    s: Set<int>,
)
    requires
        code.len() <= usize::MAX,
        successors_within(code, ip, s),
        forall|i: int| 0 <= i < stack.len() ==> s.contains(#[trigger] stack[i] as int),
    ensures
        ({
            let (instr, size) = decode(code, ip).unwrap();
            let r = expand(code, ip, instr, size as int, backwards, curr, prev, stack);
            forall|i: int| 0 <= i < r.len() ==> s.contains(#[trigger] r[i] as int)
        }),
{
    reveal(successors_within);
    let (instr, size) = decode(code, ip).unwrap();
    let len = code.len() as int;
    let next = ip + size;
    match instr {
        Instr::SplitN { at, count } => {
            lemma_push_split_n_within(stack, code, ip, at as int, count as int, s);
        },
        _ => {
            let a = match instr {
                Instr::SplitA(o) => push_target(stack, ip + o, len),
                Instr::SplitB(o) => push_target(stack, next, len),
                _ => stack,
            };
            assert forall|i: int| 0 <= i < a.len() implies s.contains(#[trigger] a[i] as int) by {
                if i < stack.len() {
                    assert(a[i] == stack[i]);
                }
            }
            let r = expand(code, ip, instr, size as int, backwards, curr, prev, stack);
            assert forall|i: int| 0 <= i < r.len() implies s.contains(#[trigger] r[i] as int) by {
                if i < stack.len() {
                    assert(r[i] == stack[i]);
                } else if i < a.len() {
                    assert(r[i] == a[i]);
                }
            }
        },
    }
}

/// A closure computation that starts inside a closed set of instruction
/// starts appends only offsets of that set.
pub proof fn lemma_closure_run_within(
    code: Seq<u8>,
    backwards: bool,
    curr: Option<u8>,
    prev: Option<u8>,
    stack: Seq<usize>,
    visited: Seq<usize>,
    out: Seq<usize>,
    s: Set<int>,
)
    requires
        code.len() <= usize::MAX,
        closed_code(code, s),
        forall|i: int| 0 <= i < stack.len() ==> s.contains(#[trigger] stack[i] as int),
    ensures
        forall|k: int|
            out.len() <= k < closure_run(code, backwards, curr, prev, stack, visited, out).len()
                ==> s.contains(
                #[trigger] closure_run(code, backwards, curr, prev, stack, visited, out)[k] as int,
            ),
    decreases code.len() - visited.len(), stack.len(),
{
    if stack.len() > 0 {
        let ip = stack.last();
        let rest = stack.drop_last();
        assert(s.contains(stack[stack.len() - 1] as int));
        assert forall|i: int| 0 <= i < rest.len() implies s.contains(#[trigger] rest[i] as int) by {
            assert(rest[i] == stack[i]);
        }
        match decode(code, ip as int) {
            Some((instr, size)) => {
                if is_thread_instr(instr) {
                    let out2 = if out.contains(ip) { out } else { out.push(ip) };
                    lemma_closure_run_within(code, backwards, curr, prev, rest, visited, out2, s);
                    lemma_closure_run_appends(code, backwards, curr, prev, rest, visited, out2);
                    let r = closure_run(code, backwards, curr, prev, rest, visited, out2);
                    assert forall|k: int| out.len() <= k < r.len() implies s.contains(#[trigger] r[k] as int) by {
                        if k < out2.len() {
                            assert(r[k] == r.subrange(0, out2.len() as int)[k]);
                            assert(out2[k] == ip);
                        }
                    }
                    assert(closure_run(code, backwards, curr, prev, stack, visited, out) == r);
                } else if is_epsilon_instr(instr) && !visited.contains(ip) && visited.len()
                    < code.len() {
                    assert(successors_within(code, ip as int, s));
                    lemma_expand_within(code, ip as int, backwards, curr, prev, rest, s);
                    let st2 = expand(code, ip as int, instr, size as int, backwards, curr, prev, rest);
                    lemma_closure_run_within(code, backwards, curr, prev, st2, visited.push(ip), out, s);
                    assert(closure_run(code, backwards, curr, prev, stack, visited, out) == closure_run(
                        code,
                        backwards,
                        curr,
                        prev,
                        st2,
                        visited.push(ip),
                        out,
                    ));
                } else {
                    lemma_closure_run_within(code, backwards, curr, prev, rest, visited, out, s);
                    assert(closure_run(code, backwards, curr, prev, stack, visited, out) == closure_run(
                        code,
                        backwards,
                        curr,
                        prev,
                        rest,
                        visited,
                        out,
                    ));
                }
            },
            None => {
                lemma_closure_run_within(code, backwards, curr, prev, rest, visited, out, s);
                assert(closure_run(code, backwards, curr, prev, stack, visited, out) == closure_run(
                    code,
                    backwards,
                    curr,
                    prev,
                    rest,
                    visited,
                    out,
                ));
            },
        }
    }
}

/// Scratch state of [`epsilon_closure`]: the pending offsets and the
/// epsilon instructions already expanded. Both are empty between calls; the
/// buffers are kept so that later calls do not allocate.
pub struct EpsilonClosureState {
    threads: Vec<usize>,
    executed: Vec<usize>,
}

impl EpsilonClosureState {
    /// Both buffers are empty.
    pub closed spec fn is_clear(&self) -> bool {
        self.threads@.len() == 0 && self.executed@.len() == 0
    }

    /// Creates an empty state.
    pub fn new() -> (r: Self)
        ensures
            r.is_clear(),
    {
        Self { threads: Vec::new(), executed: Vec::new() }
    }
}

fn contains_offset(v: &Vec<usize>, x: usize) -> (r: bool)
    ensures
        r == v@.contains(x),
{
    let mut i: usize = 0;
    while i < v.len()
        invariant
            i <= v@.len(),
            forall|k: int| 0 <= k < i ==> v@[k] != x,
        decreases v@.len() - i,
    {
        if v[i] == x {
            assert(v@[i as int] == x);
            return true;
        }
        i = i + 1;
    }
    false
}

fn push_offset(stack: &mut Vec<usize>, ip: usize, o: i16, len: usize)
    requires
        ip < len,
    ensures
        final(stack)@ == push_target(old(stack)@, ip + o, len as int),
{
    if o >= 0 {
        let d = o as usize;
        if d < len - ip {
            stack.push(ip + d);
        }
    } else {
        let d = (-(o as i32)) as usize;
        if d <= ip {
            stack.push(ip - d);
        }
    }
}

fn push_next(stack: &mut Vec<usize>, next: usize, len: usize)
    ensures
        final(stack)@ == push_target(old(stack)@, next as int, len as int),
{
    if next < len {
        stack.push(next);
    }
}

/// A sequence without duplicates of numbers below `n` has at most `n`
/// elements.
proof fn lemma_distinct_below(s: Seq<usize>, n: int)
    requires
        n >= 0,
        s.no_duplicates(),
        forall|i: int| 0 <= i < s.len() ==> s[i] < n,
    ensures
        s.len() <= n,
    decreases n,
{
    if n == 0 {
        if s.len() > 0 {
            assert(s[0] < n);
        }
    } else if exists|k: int| 0 <= k < s.len() && s[k] == n - 1 {
        let k = choose|k: int| 0 <= k < s.len() && s[k] == n - 1;
        let t = s.subrange(0, k) + s.subrange(k + 1, s.len() as int);
        assert forall|i: int| 0 <= i < t.len() implies t[i] < n - 1 by {
            if i < k {
                assert(t[i] == s[i]);
            } else {
                assert(t[i] == s[i + 1]);
            }
        }
        assert forall|i: int, j: int| 0 <= i < t.len() && 0 <= j < t.len() && i != j implies t[i]
            != t[j] by {
            let si = if i < k { i } else { i + 1 };
            let sj = if j < k { j } else { j + 1 };
            assert(t[i] == s[si]);
            assert(t[j] == s[sj]);
        }
        lemma_distinct_below(t, n - 1);
        assert(t.len() == s.len() - 1);
    } else {
        assert forall|i: int| 0 <= i < s.len() implies s[i] < n - 1 by {
            if s[i] == n - 1 {
                assert(exists|k: int| 0 <= k < s.len() && s[k] == n - 1);
            }
        }
        lemma_distinct_below(s, n - 1);
    }
}

/// Marks `ip` as expanded. `ip` is a fresh offset inside the program, so the
/// record stays below the program's length.
fn mark_executed(executed: &mut Vec<usize>, ip: usize, len: usize)
    requires
        ip < len,
        !old(executed)@.contains(ip),
        old(executed)@.no_duplicates(),
        forall|k: int| 0 <= k < old(executed)@.len() ==> old(executed)@[k] < len,
    ensures
        final(executed)@ == old(executed)@.push(ip),
        old(executed)@.len() < len,
        final(executed)@.no_duplicates(),
        forall|k: int| 0 <= k < final(executed)@.len() ==> final(executed)@[k] < len,
{
    proof {
        let s = old(executed)@.push(ip);
        assert forall|i: int, j: int| 0 <= i < s.len() && 0 <= j < s.len() && i != j implies s[i]
            != s[j] by {
            if i == s.len() - 1 {
                assert(!old(executed)@.contains(s[j]) || s[j] != ip);
            }
            if j == s.len() - 1 {
                assert(!old(executed)@.contains(s[i]) || s[i] != ip);
            }
        }
        lemma_distinct_below(s, len as int);
    }
    executed.push(ip);
}

/// Appends to `closure` the epsilon closure of `start`: the offsets of the
/// thread instructions (byte-consuming ones and `Match`) reached from
/// `start` by jumps, splits and the zero-width assertions that hold between
/// `prev` (the byte before the current position in the direction of the
/// scan) and `curr` (the byte at it). An offset already in `closure` is not
/// added again. Splits are explored in priority order: the branch that is
/// tried first comes first in `closure`. Each jump, split and assertion is
/// expanded at most once per call, so the computation ends on every
/// program, cycles of epsilon transitions included. The program must be
/// well formed from `start`; what is added then lies in every closed set of
/// instruction starts that holds `start`.
pub fn epsilon_closure(
    code: &[u8],
    start: CodeLoc,
    curr: Option<u8>,
    prev: Option<u8>,
    state: &mut EpsilonClosureState,
    closure: &mut Vec<usize>,
)
    requires
        old(state).is_clear(),
        well_formed_from(code@, start.offset() as int),
    ensures
        final(state).is_clear(),
        forall|s: Set<int>|
            closed_code(code@, s) && s.contains(start.offset() as int) ==> forall|k: int|
                old(closure)@.len() <= k < final(closure)@.len() ==> s.contains(
                    #[trigger] final(closure)@[k] as int,
                ),
        final(closure)@ == closure_of(code@, start, curr, prev, old(closure)@),
        old(closure)@.is_prefix_of(final(closure)@),
        forall|k: int|
            old(closure)@.len() <= k < final(closure)@.len() ==> is_thread_at(
                code@,
                #[trigger] final(closure)@[k],
            ),
        old(closure)@.no_duplicates() ==> final(closure)@.no_duplicates(),
{
    let len = code.len();
    proof {
        lemma_closure_run_appends(code@, start.backwards(), curr, prev, seq![start.offset()], seq![], old(closure)@);
        assert forall|s: Set<int>|
            closed_code(code@, s) && s.contains(start.offset() as int) implies forall|k: int|
                old(closure)@.len() <= k < closure_of(code@, start, curr, prev, old(closure)@).len() ==> s.contains(
                    #[trigger] closure_of(code@, start, curr, prev, old(closure)@)[k] as int,
                ) by {
            lemma_closure_run_within(code@, start.backwards(), curr, prev, seq![start.offset()], seq![], old(closure)@, s);
        }
    }
    let backwards = start.backwards();
    state.threads.push(start.offset());
    assert(state.threads@ =~= seq![start.offset()]);
    assert(state.executed@ =~= Seq::<usize>::empty());
    while state.threads.len() > 0
        invariant
            len == code@.len(),
            backwards == start.backwards(),
            closure_run(code@, backwards, curr, prev, state.threads@, state.executed@, closure@)
                == closure_of(code@, start, curr, prev, old(closure)@),
            state.executed@.no_duplicates(),
            forall|k: int| 0 <= k < state.executed@.len() ==> state.executed@[k] < len,
        decreases code@.len() - state.executed@.len(), state.threads@.len(),
    {
        let ghost stack = state.threads@;
        let ip = state.threads.pop().unwrap();
        assert(ip == stack.last() && state.threads@ == stack.drop_last());
        match decode_instr(code, ip) {
            None => {},
            Some((instr, size)) => {
                proof {
                    lemma_decode_in_bounds(code@, ip as int);
                }
                let next = ip + size;
                match instr {
                    Instr::AnyByte | Instr::Byte(_) | Instr::MaskedByte { .. }
                    | Instr::CaseInsensitiveChar(_) | Instr::ClassBitmap(_)
                    | Instr::ClassRanges { .. } | Instr::Match => {
                        if !contains_offset(closure, ip) {
                            closure.push(ip);
                        }
                    },
                    Instr::Eoi => {},
                    _ => {
                        if !contains_offset(&state.executed, ip) {
                            mark_executed(&mut state.executed, ip, len);
                            match instr {
                                Instr::SplitA(o) => {
                                    push_offset(&mut state.threads, ip, o, len);
                                    push_next(&mut state.threads, next, len);
                                },
                                Instr::SplitB(o) => {
                                    push_next(&mut state.threads, next, len);
                                    push_offset(&mut state.threads, ip, o, len);
                                },
                                Instr::SplitN { at, count } => {
                                    let ghost base = state.threads@;
                                    let ghost marked = state.executed@;
                                    let mut j: usize = count;
                                    while j > 0
                                        invariant
                                            j <= count,
                                            ip < len,
                                            state.executed@ == marked,
                                            len == code@.len(),
                                            at + 2 * count <= code@.len(),
                                            push_split_n(state.threads@, code@, ip as int, at as int, j as int)
                                                == push_split_n(base, code@, ip as int, at as int, count as int),
                                        decreases j,
                                    {
                                        j = j - 1;
                                        let o = read_i16_at(code, at + 2 * j);
                                        push_offset(&mut state.threads, ip, o, len);
                                    }
                                },
                                Instr::Jump(o) => {
                                    push_offset(&mut state.threads, ip, o, len);
                                },
                                Instr::Start => {
                                    let fires = if backwards { curr.is_none() } else { prev.is_none() };
                                    if fires {
                                        push_next(&mut state.threads, next, len);
                                    }
                                },
                                Instr::End => {
                                    let fires = if backwards { prev.is_none() } else { curr.is_none() };
                                    if fires {
                                        push_next(&mut state.threads, next, len);
                                    }
                                },
                                Instr::WordBoundary => {
                                    if is_word_opt(prev) != is_word_opt(curr) {
                                        push_next(&mut state.threads, next, len);
                                    }
                                },
                                Instr::WordBoundaryNeg => {
                                    if is_word_opt(prev) == is_word_opt(curr) {
                                        push_next(&mut state.threads, next, len);
                                    }
                                },
                                _ => {},
                            }
                            assert(state.threads@ == expand(code@, ip as int, instr, size as int, backwards, curr, prev, stack.drop_last()));
                        }
                    },
                }
            },
        }
    }
    state.executed.clear();
}

fn is_word_opt(b: Option<u8>) -> (r: bool)
    ensures
        r == is_word(b),
{
    match b {
        Some(x) => (48 <= x && x <= 57) || (65 <= x && x <= 90) || (97 <= x && x <= 122),
        None => false,
    }
}

} // verus!
