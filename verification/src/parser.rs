//! The two-pass parser: a run-length encoder over the filtered command
//! characters, then a jump resolver that links every loop opening to its
//! balancing loop close. The specification mirrors both passes with
//! recursive spec functions, so `parse_source` promises exactly the
//! sequence (or error) that the passes construct.

use vstd::prelude::*;

use crate::error_handler::Error;
use crate::instruction::{is_command, is_command_char, kind_of_char, Instruction, InstructionKind};

verus! {

/// The sub-sequence of the source text that the parser keeps: the command
/// characters, in their original order.
pub open spec fn filtered(cs: Seq<char>) -> Seq<char>
    decreases cs.len(),
{
    if cs.len() == 0 {
        Seq::empty()
    } else if is_command_char(cs.last()) {
        filtered(cs.drop_last()).push(cs.last())
    } else {
        filtered(cs.drop_last())
    }
}

/// +1 for a loop opening, -1 for a loop close: the contribution of one
/// character to the bracket-nesting depth.
pub open spec fn char_weight(c: char) -> int {
    if c == '[' {
        1
    } else if c == ']' {
        -1
    } else {
        0
    }
}

/// The bracket-nesting depth left open after the whole character sequence.
pub open spec fn depth_sum(cs: Seq<char>) -> int
    decreases cs.len(),
{
    if cs.len() == 0 {
        0
    } else {
        depth_sum(cs.drop_last()) + char_weight(cs.last())
    }
}

/// No prefix closes more loops than were opened before it.
pub open spec fn prefixes_ok(cs: Seq<char>) -> bool {
    forall|p: int| 0 <= p <= cs.len() ==> depth_sum(#[trigger] cs.subrange(0, p)) >= 0
}

/// Every loop close has an earlier opening, and every opening is closed:
/// the condition under which the encoder succeeds.
pub open spec fn brackets_balanced(cs: Seq<char>) -> bool {
    prefixes_ok(cs) && depth_sum(cs) == 0
}

/// The run-length encoding of a command character sequence: a character is
/// merged into the last emitted instruction when its kind matches, else a
/// new instruction is appended.
pub open spec fn encode(cs: Seq<char>) -> Seq<Instruction>
    decreases cs.len(),
{
    if cs.len() == 0 {
        Seq::empty()
    } else {
        let rest = encode(cs.drop_last());
        let kind = kind_of_char(cs.last());
        if rest.len() > 0 && rest.last().kind == kind {
            rest.update(
                rest.len() - 1,
                Instruction {
                    index: rest.last().index,
                    kind: rest.last().kind,
                    times: (rest.last().times + 1) as usize,
                },
            )
        } else {
            rest.push(Instruction { index: rest.len() as usize, kind, times: 1 })
        }
    }
}

/// True of an instruction that opens loops.
pub open spec fn inst_is_start(inst: Instruction) -> bool {
    inst.kind matches InstructionKind::LoopStart { .. }
}

/// True of an instruction that closes loops.
pub open spec fn inst_is_end(inst: Instruction) -> bool {
    inst.kind matches InstructionKind::LoopEnd { .. }
}

/// The contribution of one instruction to the open-loop balance, weighted
/// by its repeat count.
pub open spec fn inst_weight(inst: Instruction) -> int {
    if inst_is_start(inst) {
        inst.times as int
    } else if inst_is_end(inst) {
        -(inst.times as int)
    } else {
        0
    }
}

/// The weighted open-loop balance of the first `p` instructions.
pub open spec fn weight_sum(s: Seq<Instruction>, p: int) -> int
    decreases p,
{
    if p <= 0 {
        0
    } else {
        weight_sum(s, p - 1) + if p <= s.len() {
            inst_weight(s[p - 1])
        } else {
            0
        }
    }
}

/// The sum of the repeat counts of the first `p` instructions: the number
/// of command characters they absorbed.
pub open spec fn times_sum(s: Seq<Instruction>, p: int) -> int
    decreases p,
{
    if p <= 0 {
        0
    } else {
        times_sum(s, p - 1) + if p <= s.len() {
            s[p - 1].times as int
        } else {
            0
        }
    }
}

/// The forward scan of the resolver: walking right from position `j` with
/// `balance` loops still open, the position of the loop close that brings
/// the balance down to (or below) zero, if the scan reaches one.
pub open spec fn scan_forward(s: Seq<Instruction>, j: int, balance: int) -> Option<int>
    decreases s.len() - j,
{
    if j < 0 || j >= s.len() {
        None
    } else if inst_is_end(s[j]) {
        if balance - s[j].times <= 0 {
            Some(j)
        } else {
            scan_forward(s, j + 1, balance - s[j].times)
        }
    } else if inst_is_start(s[j]) {
        scan_forward(s, j + 1, balance + s[j].times)
    } else {
        scan_forward(s, j + 1, balance)
    }
}

/// The backward scan of the resolver: walking left from position `j` with
/// `balance` loop closes unaccounted for, the position of the loop opening
/// that brings the balance down to (or below) zero, if the scan reaches one.
pub open spec fn scan_backward(s: Seq<Instruction>, j: int, balance: int) -> Option<int>
    decreases j + 1,
{
    if j < 0 || j >= s.len() {
        None
    } else if inst_is_start(s[j]) {
        if balance - s[j].times <= 0 {
            Some(j)
        } else {
            scan_backward(s, j - 1, balance - s[j].times)
        }
    } else if inst_is_end(s[j]) {
        scan_backward(s, j - 1, balance + s[j].times)
    } else {
        scan_backward(s, j - 1, balance)
    }
}

/// A loop close whose body is empty: its opening stands immediately before
/// it. The resolver rejects such a pair as a potential infinite loop.
pub open spec fn empty_loop_at(s: Seq<Instruction>, i: int) -> bool {
    1 <= i < s.len() && inst_is_end(s[i]) && inst_is_start(s[i - 1])
}

pub open spec fn has_empty_loop(s: Seq<Instruction>) -> bool {
    exists|i: int| empty_loop_at(s, i)
}

/// What the resolver makes of the instruction at position `i`: a loop
/// opening points at the instruction just before its balancing close, a
/// loop close points at the instruction just after its balancing opening,
/// and everything else is left untouched. A scan that finds nothing leaves
/// the instruction untouched as well; over a balanced sequence that case
/// never arises.
pub open spec fn resolved_inst(s: Seq<Instruction>, i: int) -> Instruction {
    let inst = s[i];
    match inst.kind {
        InstructionKind::LoopStart { .. } => match scan_forward(s, i + 1, inst.times as int) {
            Some(j) => Instruction {
                index: inst.index,
                kind: InstructionKind::LoopStart { end_index: (j - 1) as usize },
                times: inst.times,
            },
            None => inst,
        },
        InstructionKind::LoopEnd { .. } => match scan_backward(s, i - 1, 1) {
            Some(j) => if j == i - 1 {
                inst
            } else {
                Instruction {
                    index: inst.index,
                    kind: InstructionKind::LoopEnd { start_index: (j + 1) as usize },
                    times: inst.times,
                }
            },
            None => inst,
        },
        _ => inst,
    }
}

/// The jump-resolved form of an encoded instruction sequence.
pub open spec fn resolve(s: Seq<Instruction>) -> Seq<Instruction> {
    Seq::new(s.len(), |i: int| resolved_inst(s, i))
}

proof fn lemma_filtered_push(cs: Seq<char>, c: char)
    ensures
        is_command_char(c) ==> filtered(cs.push(c)) == filtered(cs).push(c),
        !is_command_char(c) ==> filtered(cs.push(c)) == filtered(cs),
{
    assert(cs.push(c).drop_last() =~= cs);
    assert(cs.push(c).last() == c);
}

proof fn lemma_filtered_len(cs: Seq<char>)
    ensures
        filtered(cs).len() <= cs.len(),
    decreases cs.len(),
{
    if cs.len() > 0 {
        lemma_filtered_len(cs.drop_last());
    }
}

proof fn lemma_depth_sum_bound(cs: Seq<char>)
    ensures
        -cs.len() <= depth_sum(cs) <= cs.len(),
    decreases cs.len(),
{
    if cs.len() > 0 {
        lemma_depth_sum_bound(cs.drop_last());
    }
}

proof fn lemma_filtered_append(a: Seq<char>, b: Seq<char>)
    ensures
        filtered(a + b) == filtered(a) + filtered(b),
    decreases b.len(),
{
    if b.len() == 0 {
        assert(a + b =~= a);
        assert(filtered(a) + b =~= filtered(a));
        assert(filtered(b) =~= Seq::<char>::empty());
        assert(filtered(a) + filtered(b) =~= filtered(a));
    } else {
        let b0 = b.drop_last();
        let x = b.last();
        lemma_filtered_append(a, b0);
        assert(a + b =~= (a + b0).push(x));
        lemma_filtered_push(a + b0, x);
        assert(b0.push(x) =~= b);
        lemma_filtered_push(b0, x);
        if is_command_char(x) {
            assert(filtered(a) + filtered(b0).push(x) =~= (filtered(a) + filtered(b0)).push(x));
        }
    }
}

proof fn lemma_times_sum_congruence(s1: Seq<Instruction>, s2: Seq<Instruction>, p: int)
    requires
        0 <= p <= s1.len(),
        p <= s2.len(),
        forall|k: int| 0 <= k < p ==> s1[k] == s2[k],
    ensures
        times_sum(s1, p) == times_sum(s2, p),
    decreases p,
{
    if p > 0 {
        lemma_times_sum_congruence(s1, s2, p - 1);
    }
}

proof fn lemma_weight_sum_congruence(s1: Seq<Instruction>, s2: Seq<Instruction>, p: int)
    requires
        0 <= p <= s1.len(),
        p <= s2.len(),
        forall|k: int| 0 <= k < p ==> s1[k] == s2[k],
    ensures
        weight_sum(s1, p) == weight_sum(s2, p),
    decreases p,
{
    if p > 0 {
        lemma_weight_sum_congruence(s1, s2, p - 1);
    }
}

proof fn lemma_times_sum_monotone(s: Seq<Instruction>, p: int, q: int)
    requires
        0 <= p <= q,
    ensures
        times_sum(s, p) <= times_sum(s, q),
    decreases q,
{
    if p < q {
        lemma_times_sum_monotone(s, p, q - 1);
    }
}

/// The shape facts the encoder guarantees: at most one instruction per
/// character, repeat counts that are positive, indexes that match
/// positions, and repeat counts that sum to the character count.
proof fn lemma_encode_wf(cs: Seq<char>)
    requires
        cs.len() <= usize::MAX,
    ensures
        encode(cs).len() <= cs.len(),
        forall|k: int|
            0 <= k < encode(cs).len() ==> 1 <= (#[trigger] encode(cs)[k]).times <= cs.len()
                && encode(cs)[k].index == k,
        times_sum(encode(cs), encode(cs).len() as int) == cs.len(),
    decreases cs.len(),
{
    if cs.len() > 0 {
        let cs0 = cs.drop_last();
        let rest = encode(cs0);
        lemma_encode_wf(cs0);
        lemma_times_sum_congruence(encode(cs), rest, encode(cs).len() - 1);
    }
}

proof fn lemma_depth_sum_push(cs: Seq<char>, c: char)
    ensures
        depth_sum(cs.push(c)) == depth_sum(cs) + char_weight(c),
{
    assert(cs.push(c).drop_last() =~= cs);
    assert(cs.push(c).last() == c);
}

proof fn lemma_prefixes_ok_push(cs: Seq<char>, c: char)
    requires
        prefixes_ok(cs),
        depth_sum(cs) + char_weight(c) >= 0,
    ensures
        prefixes_ok(cs.push(c)),
{
    assert forall|p: int| 0 <= p <= cs.push(c).len() implies depth_sum(
        #[trigger] cs.push(c).subrange(0, p),
    ) >= 0 by {
        if p <= cs.len() {
            assert(cs.push(c).subrange(0, p) =~= cs.subrange(0, p));
        } else {
            assert(cs.push(c).subrange(0, p) =~= cs.push(c));
            lemma_depth_sum_push(cs, c);
        }
    }
}

/// The first pass: filter the source down to command characters and
/// run-length-encode them, tracking the loop-nesting depth so that an
/// unmatched bracket is rejected.
fn run_length_encode(src: &str) -> (r: Result<Vec<Instruction>, Error>)
    ensures
        src@.len() <= usize::MAX,
        r matches Ok(v) ==> brackets_balanced(filtered(src@)) && v@ == encode(filtered(src@)),
        r matches Err(e) ==> e == Error::NonClosedBrackets && !brackets_balanced(filtered(src@)),
{
    let n = src.unicode_len();
    let mut loop_depth: usize = 0;
    let mut insts: Vec<Instruction> = Vec::new();
    let mut idx: usize = 0;

    proof {
        assert(src@.subrange(0, 0) =~= Seq::<char>::empty());
        assert(filtered(Seq::<char>::empty()) =~= Seq::<char>::empty());
        assert forall|p: int| 0 <= p <= 0 implies depth_sum(
            #[trigger] Seq::<char>::empty().subrange(0, p),
        ) >= 0 by {
            assert(Seq::<char>::empty().subrange(0, p) =~= Seq::<char>::empty());
        }
    }

    while idx < n
        invariant
            n == src@.len(),
            idx <= n,
            insts@ == encode(filtered(src@.subrange(0, idx as int))),
            loop_depth == depth_sum(filtered(src@.subrange(0, idx as int))),
            prefixes_ok(filtered(src@.subrange(0, idx as int))),
        decreases n - idx,
    {
        let ghost pre = src@.subrange(0, idx as int);
        let ghost fp = filtered(pre);
        let c = src.get_char(idx);
        proof {
            assert(src@.subrange(0, idx + 1) =~= pre.push(c));
            lemma_filtered_push(pre, c);
            lemma_filtered_len(pre);
            lemma_depth_sum_bound(fp);
        }
        if is_command(c) {
            proof {
                lemma_depth_sum_push(fp, c);
            }
            if c == ']' {
                if loop_depth == 0 {
                    proof {
                        let whole = src@;
                        let pre1 = whole.subrange(0, idx + 1);
                        let suf = whole.subrange(idx + 1, n as int);
                        assert(whole =~= pre1 + suf);
                        lemma_filtered_append(pre1, suf);
                        let f_all = filtered(whole);
                        let p = filtered(pre1).len() as int;
                        assert(f_all.subrange(0, p) =~= filtered(pre1));
                        assert(depth_sum(filtered(pre1)) == -1);
                    }
                    return Err(Error::NonClosedBrackets);
                }
                loop_depth -= 1;
            } else if c == '[' {
                loop_depth += 1;
            }
            proof {
                lemma_prefixes_ok_push(fp, c);
            }
            let curr = Instruction::new(insts.len(), c);
            let m = insts.len();
            proof {
                lemma_encode_wf(fp);
                assert(fp.push(c).drop_last() =~= fp);
                assert(fp.push(c).last() == c);
            }
            if m > 0 && insts[m - 1].kind == curr.kind {
                let mut upd = insts[m - 1];
                upd.add_repeat();
                insts[m - 1] = upd;
                proof {
                    assert(insts@ =~= encode(fp.push(c)));
                }
            } else {
                insts.push(curr);
                proof {
                    assert(insts@ =~= encode(fp.push(c)));
                }
            }
        }
        idx += 1;
    }

    proof {
        assert(src@.subrange(0, n as int) =~= src@);
    }
    if loop_depth > 0 {
        return Err(Error::NonClosedBrackets);
    }
    Ok(insts)
}

proof fn lemma_resolved_inst_shape(s: Seq<Instruction>, k: int)
    requires
        0 <= k < s.len(),
    ensures
        resolved_inst(s, k).times == s[k].times,
        resolved_inst(s, k).index == s[k].index,
        inst_is_start(resolved_inst(s, k)) == inst_is_start(s[k]),
        inst_is_end(resolved_inst(s, k)) == inst_is_end(s[k]),
{
}

/// The second pass: for every loop instruction, scan for the instruction
/// that balances it, weighting each loop instruction by its repeat count,
/// and set the jump target; an empty loop body is rejected instead.
fn resolve_jumps(insts: &mut Vec<Instruction>) -> (err: Option<Error>)
    requires
        forall|k: int| 0 <= k < old(insts)@.len() ==> (#[trigger] old(insts)@[k]).times >= 1,
        times_sum(old(insts)@, old(insts)@.len() as int) <= usize::MAX,
    ensures
        err is None ==> final(insts)@ == resolve(old(insts)@) && !has_empty_loop(old(insts)@),
        err matches Some(e) ==> e == Error::InfiniteLoop && has_empty_loop(old(insts)@),
{
    let ghost s0 = insts@;
    let len = insts.len();
    let mut i: usize = 0;
    while i < len
        invariant
            s0 == old(insts)@,
            len == s0.len(),
            insts@.len() == len,
            i <= len,
            forall|k: int| 0 <= k < s0.len() ==> (#[trigger] s0[k]).times >= 1,
            times_sum(s0, s0.len() as int) <= usize::MAX,
            forall|k: int| 0 <= k < i as int ==> #[trigger] insts@[k] == resolve(s0)[k],
            forall|k: int| i as int <= k < len as int ==> #[trigger] insts@[k] == s0[k],
            forall|k: int| 0 <= k < i as int ==> !empty_loop_at(s0, k),
        decreases len - i,
    {
        let inst_i = insts[i];
        let mut update_jump_index: Option<usize> = None;
        proof {
            assert(inst_i == s0[i as int]);
        }
        match inst_i.kind {
            InstructionKind::LoopStart { .. } => {
                let ghost target = scan_forward(s0, i as int + 1, inst_i.times as int);
                let mut loop_starts: usize = inst_i.times;
                let mut j: usize = i + 1;
                proof {
                    lemma_times_sum_monotone(s0, 0, i as int);
                }
                while j < len && update_jump_index.is_none()
                    invariant
                        s0 == old(insts)@,
                        len == s0.len(),
                        insts@.len() == len,
                        i < len,
                        inst_i == s0[i as int],
                        inst_is_start(s0[i as int]),
                        i + 1 <= j <= len,
                        forall|k: int| 0 <= k < s0.len() ==> (#[trigger] s0[k]).times >= 1,
                        times_sum(s0, s0.len() as int) <= usize::MAX,
                        forall|k: int|
                            i as int <= k < len as int ==> #[trigger] insts@[k] == s0[k],
                        update_jump_index is None ==> scan_forward(
                            s0,
                            j as int,
                            loop_starts as int,
                        ) == target,
                        update_jump_index is None ==> loop_starts as int <= times_sum(
                            s0,
                            j as int,
                        ),
                        update_jump_index matches Some(u) ==> target == Some(u as int + 1) && i
                            <= u && u as int + 1 < len as int,
                    decreases len - j + (if update_jump_index is None {
                        1int
                    } else {
                        0int
                    }),
                {
                    let inst_j = insts[j];
                    proof {
                        assert(inst_j == s0[j as int]);
                        lemma_times_sum_monotone(s0, j as int + 1, s0.len() as int);
                    }
                    match inst_j.kind {
                        InstructionKind::LoopEnd { .. } => {
                            if inst_j.times >= loop_starts {
                                update_jump_index = Some(j - 1);
                            } else {
                                loop_starts = loop_starts - inst_j.times;
                                j = j + 1;
                            }
                        },
                        InstructionKind::LoopStart { .. } => {
                            loop_starts = loop_starts + inst_j.times;
                            j = j + 1;
                        },
                        _ => {
                            j = j + 1;
                        },
                    }
                }
                proof {
                    if update_jump_index is None {
                        assert(j == len);
                        assert(target is None);
                        assert(resolved_inst(s0, i as int) == s0[i as int]);
                    } else {
                        let u = update_jump_index->0;
                        assert(target == Some(u as int + 1));
                        assert(resolved_inst(s0, i as int) == Instruction {
                            index: s0[i as int].index,
                            kind: InstructionKind::LoopStart { end_index: u },
                            times: s0[i as int].times,
                        });
                    }
                    assert(!empty_loop_at(s0, i as int));
                }
            },
            InstructionKind::LoopEnd { .. } => {
                let ghost target = scan_backward(s0, i as int - 1, 1);
                let mut loop_ends: usize = 1;
                let mut j: usize = i;
                while j > 0 && update_jump_index.is_none()
                    invariant
                        s0 == old(insts)@,
                        len == s0.len(),
                        insts@.len() == len,
                        i < len,
                        inst_i == s0[i as int],
                        inst_is_end(s0[i as int]),
                        j <= i,
                        forall|k: int| 0 <= k < s0.len() ==> (#[trigger] s0[k]).times >= 1,
                        times_sum(s0, s0.len() as int) <= usize::MAX,
                        forall|k: int|
                            0 <= k < i as int ==> #[trigger] insts@[k] == resolve(s0)[k],
                        forall|k: int|
                            i as int <= k < len as int ==> #[trigger] insts@[k] == s0[k],
                        update_jump_index is None ==> loop_ends >= 1 && scan_backward(
                            s0,
                            j as int - 1,
                            loop_ends as int,
                        ) == target,
                        update_jump_index is None ==> loop_ends as int <= 1 + times_sum(
                            s0,
                            i as int,
                        ) - times_sum(s0, j as int),
                        update_jump_index matches Some(u) ==> target == Some(u as int - 1) && 1
                            <= u && u as int <= i as int - 1 && u as int - 1 != i as int - 1,
                    decreases j + (if update_jump_index is None {
                        1int
                    } else {
                        0int
                    }),
                {
                    let p = j - 1;
                    let inst_p = insts[p];
                    proof {
                        lemma_resolved_inst_shape(s0, p as int);
                        assert(inst_p.times == s0[p as int].times);
                        lemma_times_sum_monotone(s0, 0, p as int);
                        lemma_times_sum_monotone(s0, i as int + 1, s0.len() as int);
                    }
                    match inst_p.kind {
                        InstructionKind::LoopStart { .. } => {
                            if inst_p.times >= loop_ends {
                                if i == p + 1 {
                                    proof {
                                        assert(inst_is_start(s0[p as int]));
                                        assert(empty_loop_at(s0, i as int));
                                    }
                                    return Some(Error::InfiniteLoop);
                                }
                                update_jump_index = Some(p + 1);
                            } else {
                                loop_ends = loop_ends - inst_p.times;
                                j = p;
                            }
                        },
                        InstructionKind::LoopEnd { .. } => {
                            loop_ends = loop_ends + inst_p.times;
                            j = p;
                        },
                        _ => {
                            j = p;
                        },
                    }
                }
                proof {
                    if update_jump_index is None {
                        assert(j == 0);
                        assert(target is None);
                        assert(resolved_inst(s0, i as int) == s0[i as int]);
                    } else {
                        let u = update_jump_index->0;
                        assert(target == Some(u as int - 1));
                        assert(resolved_inst(s0, i as int) == Instruction {
                            index: s0[i as int].index,
                            kind: InstructionKind::LoopEnd { start_index: u },
                            times: s0[i as int].times,
                        });
                    }
                    // the opening directly before this close would have stopped
                    // the scan at once, so a completed scan rules it out
                    if i >= 1 && inst_is_start(s0[i as int - 1]) {
                        assert(scan_backward(s0, i as int - 1, 1) == Some(i as int - 1));
                        assert(false);
                    }
                    assert(!empty_loop_at(s0, i as int));
                }
            },
            _ => {
                proof {
                    assert(resolved_inst(s0, i as int) == s0[i as int]);
                    assert(!empty_loop_at(s0, i as int));
                }
            },
        }
        if let Some(jump) = update_jump_index {
            let mut upd_inst = insts[i];
            let mut upd_kind = upd_inst.kind;
            upd_kind.add_jump_index(jump);
            upd_inst.kind = upd_kind;
            insts[i] = upd_inst;
        }
        proof {
            assert(insts@[i as int] == resolve(s0)[i as int]);
        }
        i = i + 1;
    }
    proof {
        assert(insts@ =~= resolve(s0));
        if has_empty_loop(s0) {
            let w = choose|w: int| empty_loop_at(s0, w);
            assert(!empty_loop_at(s0, w));
        }
    }
    None
}

/// Parses a source text in full: filter, run-length encode, and resolve
/// jumps. Returns the resolved instruction sequence, or the first failure:
/// `NonClosedBrackets` when the loop brackets among the command characters
/// do not balance, `InfiniteLoop` when a loop close follows its opening
/// with an empty body.
pub fn parse_source(src: &str) -> (r: Result<Vec<Instruction>, Error>)
    ensures
        r matches Ok(v) ==> {
            &&& brackets_balanced(filtered(src@))
            &&& !has_empty_loop(encode(filtered(src@)))
            &&& v@ == resolve(encode(filtered(src@)))
        },
        r matches Err(e) ==> {
            &&& (e == Error::NonClosedBrackets <==> !brackets_balanced(filtered(src@)))
            &&& (e == Error::InfiniteLoop <==> brackets_balanced(filtered(src@))
                && has_empty_loop(encode(filtered(src@))))
            &&& (e == Error::NonClosedBrackets || e == Error::InfiniteLoop)
        },
{
    let mut insts = match run_length_encode(src) {
        Ok(v) => v,
        Err(e) => {
            return Err(e);
        },
    };
    proof {
        lemma_filtered_len(src@);
        lemma_encode_wf(filtered(src@));
    }
    match resolve_jumps(&mut insts) {
        None => Ok(insts),
        Some(e) => Err(e),
    }
}

/// Same instruction variant, disregarding the jump payload of the loop
/// kinds; two non-loop kinds match only when they are equal.
pub open spec fn kind_matches(a: InstructionKind, b: InstructionKind) -> bool {
    ||| (a matches InstructionKind::LoopStart { .. } && b matches InstructionKind::LoopStart {
        ..
    })
    ||| (a matches InstructionKind::LoopEnd { .. } && b matches InstructionKind::LoopEnd { .. })
    ||| (!(a matches InstructionKind::LoopStart { .. }) && !(a
        matches InstructionKind::LoopEnd { .. }) && a == b)
}

/// The sum of the repeat counts of the instructions whose kind is the one
/// the command character `c` stands for.
pub open spec fn kind_times_sum(s: Seq<Instruction>, c: char) -> int
    decreases s.len(),
{
    if s.len() == 0 {
        0
    } else {
        kind_times_sum(s.drop_last(), c) + if kind_matches(s.last().kind, kind_of_char(c)) {
            s.last().times as int
        } else {
            0
        }
    }
}

/// How often the character `c` occurs in the sequence.
pub open spec fn char_count(cs: Seq<char>, c: char) -> int
    decreases cs.len(),
{
    if cs.len() == 0 {
        0
    } else {
        char_count(cs.drop_last(), c) + if cs.last() == c {
            1int
        } else {
            0int
        }
    }
}

proof fn lemma_filtered_chars(cs: Seq<char>)
    ensures
        forall|k: int|
            0 <= k < filtered(cs).len() ==> is_command_char(#[trigger] filtered(cs)[k]),
    decreases cs.len(),
{
    if cs.len() > 0 {
        lemma_filtered_chars(cs.drop_last());
        let f0 = filtered(cs.drop_last());
        if is_command_char(cs.last()) {
            assert forall|k: int| 0 <= k < filtered(cs).len() implies is_command_char(
                #[trigger] filtered(cs)[k],
            ) by {
                if k < f0.len() {
                    assert(filtered(cs)[k] == f0[k]);
                } else {
                    assert(filtered(cs)[k] == cs.last());
                }
            }
        }
    }
}

proof fn lemma_encode_kind_counts(cs: Seq<char>, c: char)
    requires
        cs.len() <= usize::MAX,
        is_command_char(c),
        forall|k: int| 0 <= k < cs.len() ==> is_command_char(#[trigger] cs[k]),
    ensures
        kind_times_sum(encode(cs), c) == char_count(cs, c),
    decreases cs.len(),
{
    if cs.len() > 0 {
        let cs0 = cs.drop_last();
        let d = cs.last();
        let rest = encode(cs0);
        lemma_encode_wf(cs0);
        lemma_encode_kind_counts(cs0, c);
        let s = encode(cs);
        if rest.len() > 0 && rest.last().kind == kind_of_char(d) {
            assert(s.drop_last() =~= rest.drop_last());
            assert(kind_times_sum(rest, c) == kind_times_sum(rest.drop_last(), c) + if kind_matches(
                rest.last().kind,
                kind_of_char(c),
            ) {
                rest.last().times as int
            } else {
                0
            });
        } else {
            assert(s.drop_last() =~= rest);
        }
    }
}

proof fn lemma_kind_times_sum_congruent(s1: Seq<Instruction>, s2: Seq<Instruction>, c: char)
    requires
        s1.len() == s2.len(),
        forall|k: int|
            0 <= k < s1.len() ==> kind_matches(#[trigger] s1[k].kind, s2[k].kind) && s1[k].times
                == s2[k].times,
    ensures
        kind_times_sum(s1, c) == kind_times_sum(s2, c),
    decreases s1.len(),
{
    if s1.len() > 0 {
        lemma_kind_times_sum_congruent(s1.drop_last(), s2.drop_last(), c);
    }
}

/// The parse of a source text: its command characters, run-length encoded,
/// with all loop jumps resolved.
pub open spec fn parsed(src: Seq<char>) -> Seq<Instruction> {
    resolve(encode(filtered(src)))
}

/// The instruction count never exceeds the command character count, and
/// for each command character the repeat counts of the instructions of its
/// kind add up to the occurrences of that character among the command
/// characters: encoding loses no command and invents none.
pub proof fn lemma_instruction_counts(src: Seq<char>, c: char)
    requires
        src.len() <= usize::MAX,
        is_command_char(c),
    ensures
        parsed(src).len() <= filtered(src).len(),
        kind_times_sum(parsed(src), c) == char_count(filtered(src), c),
{
    let cs = filtered(src);
    let s = encode(cs);
    lemma_filtered_len(src);
    lemma_filtered_chars(src);
    lemma_encode_wf(cs);
    lemma_encode_kind_counts(cs, c);
    assert forall|k: int| 0 <= k < parsed(src).len() implies kind_matches(
        #[trigger] parsed(src)[k].kind,
        s[k].kind,
    ) && parsed(src)[k].times == s[k].times by {
        lemma_resolved_inst_shape(s, k);
    }
    lemma_kind_times_sum_congruent(parsed(src), s, c);
}

proof fn lemma_weight_sum_encode(cs: Seq<char>)
    requires
        cs.len() <= usize::MAX,
        prefixes_ok(cs),
    ensures
        weight_sum(encode(cs), encode(cs).len() as int) == depth_sum(cs),
        forall|p: int| 0 <= p <= encode(cs).len() ==> weight_sum(encode(cs), p) >= 0,
    decreases cs.len(),
{
    if cs.len() > 0 {
        let cs0 = cs.drop_last();
        let d = cs.last();
        let rest = encode(cs0);
        let s = encode(cs);
        assert forall|p: int| 0 <= p <= cs0.len() implies depth_sum(
            #[trigger] cs0.subrange(0, p),
        ) >= 0 by {
            assert(cs0.subrange(0, p) =~= cs.subrange(0, p));
        }
        lemma_encode_wf(cs0);
        lemma_weight_sum_encode(cs0);
        assert(cs.subrange(0, cs.len() as int) =~= cs);
        assert(depth_sum(cs) == depth_sum(cs0) + char_weight(d));
        assert forall|p: int| 0 <= p <= s.len() implies weight_sum(s, p) >= 0 by {
            if p < s.len() {
                lemma_weight_sum_congruence(s, rest, p);
            } else {
                lemma_weight_sum_congruence(s, rest, p - 1);
            }
        }
        lemma_weight_sum_congruence(s, rest, s.len() - 1);
    }
}

proof fn lemma_scan_forward_finds(s: Seq<Instruction>, j: int, balance: int)
    requires
        0 <= j <= s.len(),
        balance >= 1,
        balance + weight_sum(s, s.len() as int) - weight_sum(s, j) <= 0,
    ensures
        scan_forward(s, j, balance) is Some,
        j <= scan_forward(s, j, balance)->0 < s.len(),
        inst_is_end(s[scan_forward(s, j, balance)->0]),
    decreases s.len() - j,
{
    assert(j < s.len());
    if inst_is_end(s[j]) {
        if balance - s[j].times <= 0 {
        } else {
            lemma_scan_forward_finds(s, j + 1, balance - s[j].times);
        }
    } else if inst_is_start(s[j]) {
        lemma_scan_forward_finds(s, j + 1, balance + s[j].times);
    } else {
        lemma_scan_forward_finds(s, j + 1, balance);
    }
}

proof fn lemma_scan_backward_finds(s: Seq<Instruction>, j: int, balance: int)
    requires
        -1 <= j < s.len(),
        balance >= 1,
        balance <= weight_sum(s, j + 1),
    ensures
        scan_backward(s, j, balance) is Some,
        0 <= scan_backward(s, j, balance)->0 <= j,
        inst_is_start(s[scan_backward(s, j, balance)->0]),
    decreases j + 1,
{
    assert(j >= 0);
    if inst_is_start(s[j]) {
        if balance - s[j].times <= 0 {
        } else {
            lemma_scan_backward_finds(s, j - 1, balance - s[j].times);
        }
    } else if inst_is_end(s[j]) {
        lemma_scan_backward_finds(s, j - 1, balance + s[j].times);
    } else {
        lemma_scan_backward_finds(s, j - 1, balance);
    }
}

/// For a source whose brackets balance and with no empty loop body, every
/// resolved jump target lies strictly within the instruction sequence and
/// on the right side of its loop: a loop opening points at an instruction
/// strictly after itself, a loop close strictly before itself.
pub proof fn lemma_resolved_jumps_in_range(src: Seq<char>)
    requires
        src.len() <= usize::MAX,
        brackets_balanced(filtered(src)),
        !has_empty_loop(encode(filtered(src))),
    ensures
        forall|i: int|
            0 <= i < parsed(src).len() ==> ((#[trigger] parsed(src)[i]).kind
                matches InstructionKind::LoopStart { end_index } ==> i < end_index < parsed(
                src,
            ).len()),
        forall|i: int|
            0 <= i < parsed(src).len() ==> ((#[trigger] parsed(src)[i]).kind
                matches InstructionKind::LoopEnd { start_index } ==> 0 < start_index < i),
{
    let cs = filtered(src);
    let s = encode(cs);
    lemma_filtered_len(src);
    lemma_encode_wf(cs);
    lemma_weight_sum_encode(cs);
    assert forall|i: int| 0 <= i < parsed(src).len() implies ((#[trigger] parsed(
        src,
    )[i]).kind matches InstructionKind::LoopStart { end_index } ==> i < end_index < parsed(
        src,
    ).len()) && (parsed(src)[i].kind matches InstructionKind::LoopEnd { start_index } ==> 0
        < start_index < i) by {
        assert(parsed(src)[i] == resolved_inst(s, i));
        if inst_is_start(s[i]) {
            assert(weight_sum(s, i + 1) == weight_sum(s, i) + s[i].times);
            lemma_scan_forward_finds(s, i + 1, s[i].times as int);
            let jf = scan_forward(s, i + 1, s[i].times as int)->0;
            if jf == i + 1 {
                assert(empty_loop_at(s, i + 1));
            }
        } else if inst_is_end(s[i]) {
            assert(weight_sum(s, i + 1) == weight_sum(s, i) - s[i].times);
            assert(weight_sum(s, i) >= 1);
            lemma_scan_backward_finds(s, i - 1, 1);
            let jf = scan_backward(s, i - 1, 1)->0;
            if jf == i - 1 {
                assert(empty_loop_at(s, i));
            }
        }
    }
}

proof fn lemma_scan_forward_congruent(
    s1: Seq<Instruction>,
    s2: Seq<Instruction>,
    j: int,
    balance: int,
)
    requires
        s1.len() == s2.len(),
        forall|k: int|
            0 <= k < s1.len() ==> (#[trigger] s1[k]).times == s2[k].times && inst_is_start(s1[k])
                == inst_is_start(s2[k]) && inst_is_end(s1[k]) == inst_is_end(s2[k]),
    ensures
        scan_forward(s1, j, balance) == scan_forward(s2, j, balance),
    decreases s1.len() - j,
{
    if 0 <= j < s1.len() {
        if inst_is_end(s1[j]) {
            if balance - s1[j].times <= 0 {
            } else {
                lemma_scan_forward_congruent(s1, s2, j + 1, balance - s1[j].times);
            }
        } else if inst_is_start(s1[j]) {
            lemma_scan_forward_congruent(s1, s2, j + 1, balance + s1[j].times);
        } else {
            lemma_scan_forward_congruent(s1, s2, j + 1, balance);
        }
    }
}

proof fn lemma_scan_backward_congruent(
    s1: Seq<Instruction>,
    s2: Seq<Instruction>,
    j: int,
    balance: int,
)
    requires
        s1.len() == s2.len(),
        forall|k: int|
            0 <= k < s1.len() ==> (#[trigger] s1[k]).times == s2[k].times && inst_is_start(s1[k])
                == inst_is_start(s2[k]) && inst_is_end(s1[k]) == inst_is_end(s2[k]),
    ensures
        scan_backward(s1, j, balance) == scan_backward(s2, j, balance),
    decreases j + 1,
{
    if 0 <= j < s1.len() {
        if inst_is_start(s1[j]) {
            if balance - s1[j].times <= 0 {
            } else {
                lemma_scan_backward_congruent(s1, s2, j - 1, balance - s1[j].times);
            }
        } else if inst_is_end(s1[j]) {
            lemma_scan_backward_congruent(s1, s2, j - 1, balance + s1[j].times);
        } else {
            lemma_scan_backward_congruent(s1, s2, j - 1, balance);
        }
    }
}

/// Re-running jump resolution on an already-resolved sequence computes
/// every jump target again and arrives at the same values: resolution is
/// idempotent.
pub proof fn lemma_resolve_idempotent(s: Seq<Instruction>)
    ensures
        resolve(resolve(s)) == resolve(s),
{
    let r = resolve(s);
    assert forall|k: int| 0 <= k < r.len() implies (#[trigger] r[k]).times == s[k].times
        && r[k].index == s[k].index && inst_is_start(r[k]) == inst_is_start(s[k]) && inst_is_end(
        r[k],
    ) == inst_is_end(s[k]) by {
        lemma_resolved_inst_shape(s, k);
    }
    assert forall|i: int| 0 <= i < r.len() implies #[trigger] resolve(r)[i] == r[i] by {
        lemma_scan_forward_congruent(r, s, i + 1, r[i].times as int);
        lemma_scan_backward_congruent(r, s, i - 1, 1);
        assert(resolve(r)[i] == resolved_inst(r, i));
        assert(r[i] == resolved_inst(s, i));
    }
    assert(resolve(r) =~= r);
}

} // verus!
