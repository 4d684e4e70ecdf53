//! What the engine's operations put on the wire, pulse by pulse.

use crate::codec::{lemma_value_bits_unique, value_bits};
use crate::io::{batch, Pulse};
use crate::scan::{lemma_stream_unique, overrun, recordable, stream};
use vstd::arithmetic::power2::lemma2_to64;
use vstd::prelude::*;

verus! {

/// The word that a position without an identification code shows: 32 high
/// bits.
pub const NO_IDCODE: u32 = 0xffff_ffff;

/// `n` high bits.
pub open spec fn highs(n: nat) -> Seq<bool> {
    Seq::new(n, |i: int| true)
}

/// The mode-select levels of a run of `n` pulses inside Shift: low, but
/// high on the last pulse where the run is to leave Shift.
pub open spec fn exit_on_last(n: nat, terminal: bool) -> Seq<bool> {
    Seq::new(n, |i: int| terminal && i == n - 1)
}

/// The pulses that shift `tdi` through the register, sampling `tdo` where
/// samples are taken, and leaving Shift on the last bit where `terminal`
/// holds.
pub open spec fn segment(tdi: Seq<bool>, terminal: bool, tdo: Option<Seq<bool>>) -> Seq<Pulse> {
    batch(tdi, exit_on_last(tdi.len(), terminal), tdo)
}

/// Five pulses with mode select high, which reset the controller from any
/// state, and one with mode select low, which takes it to Idle.
pub open spec fn reset_plan() -> Seq<Pulse> {
    batch(highs(6), seq![true, true, true, true, true, false], None)
}

/// From Idle to Shift: for the instruction register one pulse with mode
/// select high first, then high, low, low.
pub open spec fn enter_plan(ir: bool) -> Seq<Pulse> {
    if ir {
        batch(highs(4), seq![true, true, false, false], None)
    } else {
        batch(highs(3), seq![true, false, false], None)
    }
}

/// From Exit1 to Idle: mode select high, then low.
pub open spec fn exit_plan() -> Seq<Pulse> {
    batch(highs(2), seq![true, false], None)
}

/// From the middle of Shift to Idle: one pulse that leaves Shift, then the
/// way from Exit1 to Idle.
pub open spec fn leave_plan() -> Seq<Pulse> {
    batch(highs(3), seq![true, true, false], None)
}

/// `n` filler bits, all high, the last of which leaves Shift where
/// `terminal` holds. No filler bit, no pulse.
pub open spec fn fill_plan(n: nat, terminal: bool) -> Seq<Pulse> {
    segment(highs(n), terminal, None)
}

/// The pulses between entering Shift and leaving it during one register
/// access: the filler for the devices before the selected one, the payload
/// with its samples, and the filler for the devices after it. Shift is left
/// on the last filler bit, or on the last payload bit where no filler
/// follows.
pub open spec fn shift_plan(before: nat, after: nat, payload: Seq<bool>, sampled: Seq<bool>) -> Seq<
    Pulse,
> {
    fill_plan(before, false) + segment(payload, after == 0, Some(sampled)) + fill_plan(after, true)
}

/// All pulses of one register access, from Idle to Idle.
pub open spec fn access_plan(
    ir: bool,
    before: nat,
    after: nat,
    payload: Seq<bool>,
    sampled: Seq<bool>,
) -> Seq<Pulse> {
    enter_plan(ir) + shift_plan(before, after, payload, sampled) + exit_plan()
}

/// The pulses that read one 32-bit word out of the data registers: 32 high
/// bits in, the word's bits out, least significant first.
pub open spec fn word_plan(word: u32) -> Seq<Pulse> {
    segment(highs(32), false, Some(value_bits(word as nat, 32)))
}

/// The pulses that read the given words one after the other.
pub open spec fn words_plan(words: Seq<u32>) -> Seq<Pulse>
    decreases words.len(),
{
    if words.len() == 0 {
        Seq::empty()
    } else {
        words_plan(words.drop_last()) + word_plan(words.last())
    }
}

/// The pulses of a topology scan during which `sampled` came out: a high
/// bit in for each bit out.
pub open spec fn scan_plan(sampled: Seq<bool>) -> Seq<Pulse> {
    segment(highs(sampled.len()), false, Some(sampled))
}

/// All pulses of a bring-up that found the identification codes `ids` and
/// the instruction-register lengths `taps`, and whose topology scan began
/// with the bit `first`.
pub open spec fn bring_up_plan(ids: Seq<u32>, first: bool, taps: Seq<u8>) -> Seq<Pulse> {
    reset_plan() + enter_plan(false) + words_plan(ids) + word_plan(NO_IDCODE) + leave_plan()
        + enter_plan(true) + scan_plan(stream(first, taps) + seq![true, true]) + leave_plan()
}

/// None of the words is the one that stands for a missing identification
/// code.
pub open spec fn no_blank(words: Seq<u32>) -> bool {
    forall|i: int| 0 <= i < words.len() ==> #[trigger] words[i] != NO_IDCODE
}

/// `after` is `before` followed by a complete topology scan that found
/// `taps`: what was sampled is what a chain of these lengths shows, and two
/// high bits behind it.
pub open spec fn scanned(before: Seq<Pulse>, after: Seq<Pulse>, taps: Seq<u8>) -> bool {
    ||| recordable(true, taps) && after == before + scan_plan(stream(true, taps) + seq![true, true])
    ||| recordable(false, taps) && after == before + scan_plan(
        stream(false, taps) + seq![true, true],
    )
}

/// `after` is `before` followed by a complete bring-up that found `ids` and
/// `taps`.
pub open spec fn brought_up(
    before: Seq<Pulse>,
    after: Seq<Pulse>,
    ids: Seq<u32>,
    taps: Seq<u8>,
) -> bool {
    ||| recordable(true, taps) && after == before + bring_up_plan(ids, true, taps)
    ||| recordable(false, taps) && after == before + bring_up_plan(ids, false, taps)
}

/// `after` is `before` followed by a bring-up that read one identification
/// code more than `max` and stopped there.
pub open spec fn too_many_idcodes(before: Seq<Pulse>, after: Seq<Pulse>, max: nat) -> bool {
    exists|ids: Seq<u32>|
        ids.len() == max + 1 && no_blank(ids) && after == before + reset_plan() + enter_plan(false)
            + #[trigger] words_plan(ids)
}

/// `after` is `before` followed by a bring-up whose topology scan sampled
/// bits that it gave up on, and which stopped there.
pub open spec fn topology_overrun(before: Seq<Pulse>, after: Seq<Pulse>, max: nat) -> bool {
    exists|ids: Seq<u32>, sampled: Seq<bool>|
        ids.len() <= max && no_blank(ids) && overrun(sampled, max) && after == before
            + reset_plan() + enter_plan(false) + #[trigger] words_plan(ids) + word_plan(NO_IDCODE)
            + leave_plan() + enter_plan(true) + #[trigger] scan_plan(sampled)
}

/// What the reading of `n` words drives: 32 pulses for each, data in high,
/// mode select low, data out sampled.
pub open spec fn words_drive(n: nat) -> Seq<Pulse> {
    scan_plan(highs(32 * n))
}

/// What a bring-up drives that reads `words` words and whose topology scan
/// samples `bits` bits. What is sampled is left open: high stands for it.
pub open spec fn bring_up_drive(words: nat, bits: nat) -> Seq<Pulse> {
    reset_plan() + enter_plan(false) + words_drive(words) + leave_plan() + enter_plan(true)
        + scan_plan(highs(bits)) + leave_plan()
}

/// `after` is `before` followed by the pulses of a bring-up up to one that
/// a line failed.
pub open spec fn bring_up_cut_short(before: Seq<Pulse>, after: Seq<Pulse>) -> bool {
    exists|words: nat, bits: nat| cut_short(before, after, #[trigger] bring_up_drive(words, bits))
}

/// Two pulses drive the same levels and agree on whether data out is
/// sampled.
pub open spec fn same_drive(a: Pulse, b: Pulse) -> bool {
    a.tdi == b.tdi && a.tms == b.tms && (a.tdo is Some) == (b.tdo is Some)
}

/// `after` is `before` followed by pulses that drive what the first pulses
/// of `plan` drive, and there are fewer of them than the plan has.
pub open spec fn cut_short(before: Seq<Pulse>, after: Seq<Pulse>, plan: Seq<Pulse>) -> bool {
    let k = after.len() - before.len();
    &&& 0 <= k < plan.len()
    &&& after.take(before.len() as int) == before
    &&& forall|i: int| 0 <= i < k ==> same_drive(after[before.len() + i], #[trigger] plan[i])
}

/// `done` drives, pulse for pulse, what `plan` drives.
pub open spec fn carried_out(done: Seq<Pulse>, plan: Seq<Pulse>) -> bool {
    &&& done.len() == plan.len()
    &&& forall|i: int| 0 <= i < plan.len() ==> same_drive(done[i], #[trigger] plan[i])
}

/// A plan that was cut short stays cut short when more is planned behind
/// it.
pub proof fn lemma_cut_short_extends(
    before: Seq<Pulse>,
    after: Seq<Pulse>,
    plan: Seq<Pulse>,
    more: Seq<Pulse>,
)
    requires
        cut_short(before, after, plan),
    ensures
        cut_short(before, after, plan + more),
{
    let k = after.len() - before.len();
    assert forall|i: int| 0 <= i < k implies same_drive(
        after[before.len() + i],
        #[trigger] (plan + more)[i],
    ) by {
        assert(same_drive(after[before.len() + i], plan[i]));
    }
}

/// Where the head of a plan was carried out and the rest was cut short, the
/// whole was cut short.
pub proof fn lemma_cut_short_later(
    before: Seq<Pulse>,
    done: Seq<Pulse>,
    after: Seq<Pulse>,
    head: Seq<Pulse>,
    rest: Seq<Pulse>,
)
    requires
        carried_out(done, head),
        cut_short(before + done, after, rest),
    ensures
        cut_short(before, after, head + rest),
{
    let mid = before + done;
    let k = after.len() - before.len();
    assert(after.take(before.len() as int) =~= before) by {
        assert(after.take(mid.len() as int) == mid);
        assert forall|i: int| 0 <= i < before.len() implies after[i] == before[i] by {
            assert(after.take(mid.len() as int)[i] == mid[i]);
        }
    }
    assert forall|i: int| 0 <= i < k implies same_drive(
        after[before.len() + i],
        #[trigger] (head + rest)[i],
    ) by {
        if i < head.len() {
            assert(after.take(mid.len() as int)[before.len() + i] == mid[before.len() + i]);
            assert(same_drive(done[i], head[i]));
        } else {
            let j = i - head.len();
            assert(same_drive(after[mid.len() + j], rest[j]));
        }
    }
}

/// A plan that stopped after an exact part of itself, short of the whole,
/// was cut short.
pub proof fn lemma_cut_short_from_take(before: Seq<Pulse>, plan: Seq<Pulse>, k: int)
    requires
        0 <= k < plan.len(),
    ensures
        cut_short(before, before + plan.take(k), plan),
{
    let after = before + plan.take(k);
    assert(after.take(before.len() as int) =~= before);
}

/// Two plans carried out one after the other carry out the two plans
/// joined.
pub proof fn lemma_carried_out_join(
    done_a: Seq<Pulse>,
    plan_a: Seq<Pulse>,
    done_b: Seq<Pulse>,
    plan_b: Seq<Pulse>,
)
    requires
        carried_out(done_a, plan_a),
        carried_out(done_b, plan_b),
    ensures
        carried_out(done_a + done_b, plan_a + plan_b),
{
    assert forall|i: int| 0 <= i < (plan_a + plan_b).len() implies same_drive(
        (done_a + done_b)[i],
        #[trigger] (plan_a + plan_b)[i],
    ) by {
        if i < plan_a.len() {
            assert(same_drive(done_a[i], plan_a[i]));
        } else {
            assert(same_drive(done_b[i - plan_a.len()], plan_b[i - plan_a.len()]));
        }
    }
}

/// What a segment drives does not depend on what is sampled.
pub proof fn lemma_segment_drive(tdi: Seq<bool>, terminal: bool, a: Seq<bool>, b: Seq<bool>)
    ensures
        carried_out(segment(tdi, terminal, Some(a)), segment(tdi, terminal, Some(b))),
{
}

/// Whether a plan was cut short does not depend on what the plan samples.
pub proof fn lemma_cut_short_onto(
    before: Seq<Pulse>,
    after: Seq<Pulse>,
    plan: Seq<Pulse>,
    other: Seq<Pulse>,
)
    requires
        cut_short(before, after, plan),
        carried_out(plan, other),
    ensures
        cut_short(before, after, other),
{
    let k = after.len() - before.len();
    assert forall|i: int| 0 <= i < k implies same_drive(
        after[before.len() + i],
        #[trigger] other[i],
    ) by {
        assert(same_drive(after[before.len() + i], plan[i]));
        assert(same_drive(plan[i], other[i]));
    }
}

/// Where the head of a plan was carried out and the stage behind it was cut
/// short, the whole plan was cut short, whatever was to follow the stage.
pub proof fn lemma_stage_cut_short(
    before: Seq<Pulse>,
    done: Seq<Pulse>,
    after: Seq<Pulse>,
    head: Seq<Pulse>,
    stage: Seq<Pulse>,
    tail: Seq<Pulse>,
)
    requires
        carried_out(done, head),
        cut_short(before + done, after, stage),
    ensures
        cut_short(before, after, head + stage + tail),
{
    lemma_cut_short_extends(before + done, after, stage, tail);
    lemma_cut_short_later(before, done, after, head, stage + tail);
    assert(head + (stage + tail) =~= head + stage + tail);
}

/// Eight runs of pulses joined one by one to what stood before them are
/// the eight joined, behind what stood before.
pub proof fn lemma_joined(start: Seq<Pulse>, parts: Seq<Seq<Pulse>>, after: Seq<Pulse>)
    requires
        parts.len() == 8,
        after == start + parts[0] + parts[1] + parts[2] + parts[3] + parts[4] + parts[5] + parts[6]
            + parts[7],
    ensures
        after == start + (parts[0] + parts[1] + parts[2] + parts[3] + parts[4] + parts[5]
            + parts[6] + parts[7]),
{
    assert(after =~= start + (parts[0] + parts[1] + parts[2] + parts[3] + parts[4] + parts[5]
        + parts[6] + parts[7]));
}

/// Between entering Shift and leaving it, an access shifts exactly the
/// filler for the devices before the selected one, all high, then the
/// payload with a sample for each bit, then the filler for the devices
/// after it, all high; and mode select is high on the very last of these
/// pulses and on no other. So where no filler follows the payload, it is
/// the last payload bit that leaves Shift.
pub proof fn lemma_shift_plan_shape(
    before: nat,
    after: nat,
    payload: Seq<bool>,
    sampled: Seq<bool>,
)
    requires
        payload.len() >= 1,
    ensures
        ({
            let plan = shift_plan(before, after, payload, sampled);
            let len = payload.len();
            &&& plan.len() == before + len + after
            &&& forall|i: int| 0 <= i < plan.len() ==> ((#[trigger] plan[i]).tms <==> i == plan.len() - 1)
            &&& forall|i: int|
                0 <= i < before ==> #[trigger] plan[i] == (Pulse { tdi: true, tms: false, tdo: None })
            &&& forall|i: int|
                before <= i < before + len ==> (#[trigger] plan[i]).tdi == payload[i - before]
                    && plan[i].tdo == Some(sampled[i - before])
            &&& forall|i: int|
                before + len <= i < plan.len() ==> (#[trigger] plan[i]).tdi && plan[i].tdo is None
        }),
{
    let plan = shift_plan(before, after, payload, sampled);
    let lead = fill_plan(before, false);
    let body = segment(payload, after == 0, Some(sampled));
    let trail = fill_plan(after, true);
    assert(plan == lead + body + trail);
    assert forall|i: int| 0 <= i < plan.len() implies ((#[trigger] plan[i]).tms <==> i == plan.len()
        - 1) by {
        if i < before {
            assert(plan[i] == lead[i]);
        } else if i < before + payload.len() {
            assert(plan[i] == body[i - before]);
        } else {
            assert(plan[i] == trail[i - before - payload.len()]);
        }
    }
    assert forall|i: int| 0 <= i < before implies #[trigger] plan[i] == (Pulse {
        tdi: true,
        tms: false,
        tdo: None,
    }) by {
        assert(plan[i] == lead[i]);
    }
    assert forall|i: int| before <= i < before + payload.len() implies (#[trigger] plan[i]).tdi
        == payload[i - before] && plan[i].tdo == Some(sampled[i - before]) by {
        assert(plan[i] == body[i - before]);
    }
    assert forall|i: int| before + payload.len() <= i < plan.len() implies (#[trigger] plan[i]).tdi
        && plan[i].tdo is None by {
        assert(plan[i] == trail[i - before - payload.len()]);
    }
}

/// No filler bit, no pulse: a filler of length 0 shifts nothing, and so
/// never leaves Shift, whether it stands before the payload or after it.
pub proof fn lemma_no_filler_no_pulse(terminal: bool)
    ensures
        fill_plan(0, terminal) == Seq::<Pulse>::empty(),
{
    assert(fill_plan(0, terminal) =~= Seq::<Pulse>::empty());
}

/// The scan of a topology samples what it says it sampled.
pub proof fn lemma_scan_plan_unique(a: Seq<bool>, b: Seq<bool>)
    requires
        scan_plan(a) == scan_plan(b),
    ensures
        a == b,
{
    assert(scan_plan(a).len() == a.len());
    assert(scan_plan(b).len() == b.len());
    assert forall|i: int| 0 <= i < a.len() implies a[i] == b[i] by {
        assert(scan_plan(a)[i].tdo == Some(a[i]));
        assert(scan_plan(b)[i].tdo == Some(b[i]));
    }
    assert(a =~= b);
}

/// A chain whose devices show the expected pattern, register lengths
/// `lengths`, is scanned as the chain it is: the scan that has sampled its
/// bits has found exactly `lengths`.
pub proof fn lemma_scan_recovers(
    before: Seq<Pulse>,
    after: Seq<Pulse>,
    first: bool,
    lengths: Seq<u8>,
    taps: Seq<u8>,
)
    requires
        recordable(first, lengths),
        after == before + scan_plan(stream(first, lengths) + seq![true, true]),
        scanned(before, after, taps),
    ensures
        taps == lengths,
{
    let shown = stream(first, lengths) + seq![true, true];
    let found_first = recordable(true, taps) && after == before + scan_plan(
        stream(true, taps) + seq![true, true],
    );
    let seen = stream(found_first, taps) + seq![true, true];
    assert(after == before + scan_plan(seen));
    assert(scan_plan(shown) =~= after.skip(before.len() as int));
    assert(scan_plan(seen) =~= after.skip(before.len() as int));
    lemma_scan_plan_unique(shown, seen);
    assert(stream(first, lengths) =~= shown.take(shown.len() - 2));
    assert(stream(found_first, taps) =~= seen.take(seen.len() - 2));
    lemma_stream_unique(first, lengths, found_first, taps);
}

/// The pulses that read some words are 32 for each word, and those of word
/// `k` sample its bits.
pub proof fn lemma_words_plan_at(words: Seq<u32>, k: int, j: int)
    requires
        0 <= k < words.len(),
        0 <= j < 32,
    ensures
        words_plan(words).len() == 32 * words.len(),
        words_plan(words)[32 * k + j] == word_plan(words[k])[j],
    decreases words.len(),
{
    lemma_words_plan_len(words);
    lemma_words_plan_len(words.drop_last());
    if k == words.len() - 1 {
        assert(words.last() == words[k]);
    } else {
        lemma_words_plan_at(words.drop_last(), k, j);
        assert(words.drop_last()[k] == words[k]);
    }
}

/// The pulses that read some words are 32 for each word.
pub proof fn lemma_words_plan_len(words: Seq<u32>)
    ensures
        words_plan(words).len() == 32 * words.len(),
    decreases words.len(),
{
    if words.len() > 0 {
        lemma_words_plan_len(words.drop_last());
    }
}

/// A word is read by the pulses of no other word.
pub proof fn lemma_word_plan_unique(a: u32, b: u32)
    requires
        forall|j: int| 0 <= j < 32 ==> (#[trigger] word_plan(a)[j]).tdo == word_plan(b)[j].tdo,
    ensures
        a == b,
{
    assert forall|j: int| 0 <= j < 32 implies value_bits(a as nat, 32)[j] == value_bits(
        b as nat,
        32,
    )[j] by {
        assert(word_plan(a)[j].tdo == Some(value_bits(a as nat, 32)[j]));
        assert(word_plan(b)[j].tdo == Some(value_bits(b as nat, 32)[j]));
    }
    assert(value_bits(a as nat, 32) =~= value_bits(b as nat, 32));
    lemma2_to64();
    lemma_value_bits_unique(a as nat, b as nat, 32);
}

/// A chain of devices with the identification codes `codes`, none of them
/// 32 high bits, and the register lengths `lengths`, which answers a
/// bring-up with its codes in chain order, high bits behind them, and the
/// expected pattern of its instruction registers, is brought up as the
/// chain it is: the bring-up hands out exactly `codes`, and has found
/// exactly `lengths`.
pub proof fn lemma_bring_up_recovers(
    before: Seq<Pulse>,
    after: Seq<Pulse>,
    codes: Seq<u32>,
    first: bool,
    lengths: Seq<u8>,
    ids: Seq<u32>,
    taps: Seq<u8>,
)
    requires
        no_blank(codes),
        recordable(first, lengths),
        after == before + bring_up_plan(codes, first, lengths),
        no_blank(ids),
        brought_up(before, after, ids, taps),
    ensures
        ids == codes,
        taps == lengths,
{
    let found_first = recordable(true, taps) && after == before + bring_up_plan(ids, true, taps);
    let shown = bring_up_plan(codes, first, lengths);
    let seen = bring_up_plan(ids, found_first, taps);
    assert(after == before + seen);
    assert(shown =~= after.skip(before.len() as int));
    assert(seen =~= after.skip(before.len() as int));
    // Both begin with nine pulses, and the words follow.
    lemma_words_plan_len(codes);
    lemma_words_plan_len(ids);
    let blank = word_plan(NO_IDCODE);
    if ids.len() < codes.len() {
        let k = ids.len() as int;
        assert forall|j: int| 0 <= j < 32 implies (#[trigger] word_plan(codes[k])[j]).tdo
            == blank[j].tdo by {
            lemma_words_plan_at(codes, k, j);
            assert(shown[9 + 32 * k + j] == words_plan(codes)[32 * k + j]);
            assert(seen[9 + 32 * k + j] == blank[j]);
        }
        lemma_word_plan_unique(codes[k], NO_IDCODE);
        assert(false);
    }
    if codes.len() < ids.len() {
        let k = codes.len() as int;
        assert forall|j: int| 0 <= j < 32 implies (#[trigger] word_plan(ids[k])[j]).tdo
            == blank[j].tdo by {
            lemma_words_plan_at(ids, k, j);
            assert(seen[9 + 32 * k + j] == words_plan(ids)[32 * k + j]);
            assert(shown[9 + 32 * k + j] == blank[j]);
        }
        lemma_word_plan_unique(ids[k], NO_IDCODE);
        assert(false);
    }
    assert forall|k: int| 0 <= k < ids.len() implies ids[k] == codes[k] by {
        assert forall|j: int| 0 <= j < 32 implies (#[trigger] word_plan(ids[k])[j]).tdo
            == word_plan(codes[k])[j].tdo by {
            lemma_words_plan_at(ids, k, j);
            lemma_words_plan_at(codes, k, j);
            assert(seen[9 + 32 * k + j] == words_plan(ids)[32 * k + j]);
            assert(shown[9 + 32 * k + j] == words_plan(codes)[32 * k + j]);
        }
        lemma_word_plan_unique(ids[k], codes[k]);
    }
    assert(ids =~= codes);
    // Behind the words, the blank word and the way into the instruction
    // registers stand the bits of the scan.
    let skip = (9 + 32 * ids.len() + 32 + 3 + 4) as int;
    let shown_scan = scan_plan(stream(first, lengths) + seq![true, true]);
    let seen_scan = scan_plan(stream(found_first, taps) + seq![true, true]);
    assert(shown_scan =~= shown.subrange(skip, shown.len() - 3));
    assert(seen_scan =~= seen.subrange(skip, seen.len() - 3));
    lemma_scan_plan_unique(
        stream(first, lengths) + seq![true, true],
        stream(found_first, taps) + seq![true, true],
    );
    let shown_bits = stream(first, lengths) + seq![true, true];
    let seen_bits = stream(found_first, taps) + seq![true, true];
    assert(stream(first, lengths) =~= shown_bits.take(shown_bits.len() - 2));
    assert(stream(found_first, taps) =~= seen_bits.take(seen_bits.len() - 2));
    lemma_stream_unique(first, lengths, found_first, taps);
}

/// Reading words drives what the reading of as many words drives.
pub proof fn lemma_words_carried_out(words: Seq<u32>)
    ensures
        carried_out(words_plan(words), words_drive(words.len())),
    decreases words.len(),
{
    lemma_words_plan_len(words);
    if words.len() > 0 {
        let rest = words.drop_last();
        lemma_words_carried_out(rest);
        lemma_words_plan_len(rest);
        assert forall|i: int| 0 <= i < words_drive(words.len()).len() implies same_drive(
            words_plan(words)[i],
            #[trigger] words_drive(words.len())[i],
        ) by {
            if i < 32 * rest.len() {
                assert(words_plan(words)[i] == words_plan(rest)[i]);
                assert(same_drive(words_plan(rest)[i], words_drive(rest.len())[i]));
            } else {
                assert(words_plan(words)[i] == word_plan(words.last())[i - 32 * rest.len()]);
            }
        }
    }
}

/// A scan drives what a scan of as many bits drives.
pub proof fn lemma_scan_carried_out(sampled: Seq<bool>)
    ensures
        carried_out(scan_plan(sampled), scan_plan(highs(sampled.len()))),
{
}

/// Where the first stages of a bring-up were carried out and the stage
/// behind them was cut short, the bring-up was cut short. The stages are
/// the reset, the way into the data registers, the words, the way back to
/// Idle, the way into the instruction registers, the scan, and the way back
/// to Idle; `done` holds the pulses of those carried out.
pub proof fn lemma_bring_up_stage(
    start: Seq<Pulse>,
    done: Seq<Seq<Pulse>>,
    after: Seq<Pulse>,
    words: nat,
    bits: nat,
)
    requires
        done.len() <= 6,
        ({
            let stages = seq![
                reset_plan(),
                enter_plan(false),
                words_drive(words),
                leave_plan(),
                enter_plan(true),
                scan_plan(highs(bits)),
                leave_plan(),
            ];
            &&& forall|i: int| 0 <= i < done.len() ==> carried_out(#[trigger] done[i], stages[i])
            &&& cut_short(start + done.flatten(), after, stages[done.len() as int])
        }),
    ensures
        bring_up_cut_short(start, after),
{
    let stages = seq![
        reset_plan(),
        enter_plan(false),
        words_drive(words),
        leave_plan(),
        enter_plan(true),
        scan_plan(highs(bits)),
        leave_plan(),
    ];
    let n = done.len() as int;
    lemma_flatten_carried_out(done, stages.take(n));
    let head = stages.take(n).flatten();
    let tail = stages.skip(n + 1).flatten();
    lemma_stage_cut_short(start, done.flatten(), after, head, stages[n], tail);
    assert(head + stages[n] + tail =~= stages.flatten()) by {
        assert(stages =~= stages.take(n) + seq![stages[n]] + stages.skip(n + 1));
        vstd::seq_lib::lemma_flatten_concat(stages.take(n), seq![stages[n]]);
        vstd::seq_lib::lemma_flatten_concat(stages.take(n) + seq![stages[n]], stages.skip(n + 1));
        seq![stages[n]].lemma_flatten_one_element();
    }
    assert(stages.flatten() =~= bring_up_drive(words, bits)) by {
        lemma_flatten_seven(stages);
    }
}

/// Runs of pulses that each carry out a plan carry out, joined, the plans
/// joined.
pub proof fn lemma_flatten_carried_out(done: Seq<Seq<Pulse>>, plans: Seq<Seq<Pulse>>)
    requires
        done.len() == plans.len(),
        forall|i: int| 0 <= i < done.len() ==> carried_out(#[trigger] done[i], plans[i]),
    ensures
        carried_out(done.flatten(), plans.flatten()),
    decreases done.len(),
{
    if done.len() > 0 {
        let d = done.drop_first();
        let p = plans.drop_first();
        assert forall|i: int| 0 <= i < d.len() implies carried_out(#[trigger] d[i], p[i]) by {
            assert(d[i] == done[i + 1]);
            assert(carried_out(done[i + 1], plans[i + 1]));
        }
        lemma_flatten_carried_out(d, p);
        assert(carried_out(done[0], plans[0]));
        lemma_carried_out_join(done[0], plans[0], d.flatten(), p.flatten());
    }
}

/// Seven runs flattened are the seven joined one by one.
pub proof fn lemma_flatten_seven(parts: Seq<Seq<Pulse>>)
    requires
        parts.len() == 7,
    ensures
        parts.flatten() == parts[0] + parts[1] + parts[2] + parts[3] + parts[4] + parts[5]
            + parts[6],
{
    let a = parts.drop_first();
    let b = a.drop_first();
    let c = b.drop_first();
    let d = c.drop_first();
    let e = d.drop_first();
    let f = e.drop_first();
    let g = f.drop_first();
    assert(g.flatten() =~= Seq::<Pulse>::empty());
    assert(f.flatten() =~= parts[6]);
    assert(e.flatten() =~= parts[5] + parts[6]);
    assert(d.flatten() =~= parts[4] + parts[5] + parts[6]);
    assert(c.flatten() =~= parts[3] + parts[4] + parts[5] + parts[6]);
    assert(b.flatten() =~= parts[2] + parts[3] + parts[4] + parts[5] + parts[6]);
    assert(a.flatten() =~= parts[1] + parts[2] + parts[3] + parts[4] + parts[5] + parts[6]);
    assert(parts.flatten() =~= parts[0] + parts[1] + parts[2] + parts[3] + parts[4] + parts[5]
        + parts[6]);
}

/// Runs of pulses flattened, with one more run behind them, are the runs
/// flattened and that run behind them.
pub proof fn lemma_flatten_push(parts: Seq<Seq<Pulse>>, last: Seq<Pulse>)
    ensures
        parts.push(last).flatten() == parts.flatten() + last,
{
    assert(parts.push(last) =~= parts + seq![last]);
    vstd::seq_lib::lemma_flatten_concat(parts, seq![last]);
    seq![last].lemma_flatten_one_element();
}

/// The reading of one word more drives 32 pulses more.
pub proof fn lemma_words_drive_next(n: nat)
    ensures
        words_drive(n) + words_drive(1) == words_drive(n + 1),
{
    assert(words_drive(n) + words_drive(1) =~= words_drive(n + 1));
}

} // verus!
