//! How long each step of the inference takes.
use std::time::{Duration, Instant};
use vstd::prelude::*;

use crate::time::{elapsed_since, is_elapsed, is_shown, most_nanos, nanos, no_time, now, total_time};

verus! {

/// The steps that are measured, in the order of their places.
#[allow(non_camel_case_types)]
#[derive(Debug, Clone, Copy)]
pub enum FnIndex {
    TokenEmbedding,
    RmsNormInput,
    QkvProj,
    AttentionScore,
    Softmax,
    OutProj,
    MlpBlock,
    LmHead,
    rope,
    TokenizerDecode,
}

/// How many steps are measured.
pub const STEPS: usize = 10;

impl FnIndex {
    /// The place of the step among the measured times.
    pub open spec fn slot_of(self) -> int {
        match self {
            FnIndex::TokenEmbedding => 0,
            FnIndex::RmsNormInput => 1,
            FnIndex::QkvProj => 2,
            FnIndex::AttentionScore => 3,
            FnIndex::Softmax => 4,
            FnIndex::OutProj => 5,
            FnIndex::MlpBlock => 6,
            FnIndex::LmHead => 7,
            FnIndex::rope => 8,
            FnIndex::TokenizerDecode => 9,
        }
    }

    /// The place of the step among the measured times.
    pub fn slot(self) -> (r: usize)
        ensures
            r == self.slot_of(),
            r == self as usize,
            r < STEPS,
    {
        match self {
            FnIndex::TokenEmbedding => 0,
            FnIndex::RmsNormInput => 1,
            FnIndex::QkvProj => 2,
            FnIndex::AttentionScore => 3,
            FnIndex::Softmax => 4,
            FnIndex::OutProj => 5,
            FnIndex::MlpBlock => 6,
            FnIndex::LmHead => 7,
            FnIndex::rope => 8,
            FnIndex::TokenizerDecode => 9,
        }
    }
}

/// Each step has a place of its own.
pub proof fn law_slots_differ(a: FnIndex, b: FnIndex)
    requires
        a != b,
    ensures
        a.slot_of() != b.slot_of(),
        0 <= a.slot_of() < STEPS,
{
}

/// The time that each step has taken, and when the step that is under way was started.
pub struct GlobalMonitor {
    pub accum_times: [Duration; 10],
    pub start_slot: Instant,
}

/// No step has taken any time.
pub open spec fn all_zero(times: Seq<Duration>) -> bool {
    forall|i: int| 0 <= i < times.len() ==> nanos(#[trigger] times[i]) == 0
}

/// `after` are the times `before`, with `elapsed` added to those of a step.
pub open spec fn is_recorded(
    before: Seq<Duration>,
    after: Seq<Duration>,
    func: FnIndex,
    elapsed: Duration,
) -> bool {
    &&& after.len() == before.len()
    &&& nanos(after[func.slot_of()]) == nanos(before[func.slot_of()]) + nanos(elapsed)
    &&& forall|i: int|
        0 <= i < before.len() && i != func.slot_of() ==> #[trigger] after[i] == before[i]
}

/// What becomes of the times when a step ends that took `elapsed`: they are recorded where a
/// `Duration` can hold them, and else stay as they were.
pub open spec fn is_ended(
    before: Seq<Duration>,
    after: Seq<Duration>,
    func: FnIndex,
    elapsed: Duration,
    recorded: bool,
) -> bool {
    if nanos(before[func.slot_of()]) + nanos(elapsed) <= most_nanos() {
        recorded && is_recorded(before, after, func, elapsed)
    } else {
        !recorded && after == before
    }
}

/// No step has taken less time `after` than `before`.
pub open spec fn times_grow(before: Seq<Duration>, after: Seq<Duration>) -> bool {
    &&& after.len() == before.len()
    &&& forall|i: int| 0 <= i < before.len() ==> nanos(#[trigger] after[i]) >= nanos(before[i])
}

/// The times `after` a step are those `before` it, with what passed between two looks at the clock
/// added to its own.
pub open spec fn is_measured(before: Seq<Duration>, after: Seq<Duration>, func: FnIndex) -> bool {
    exists|start: Instant, elapsed: Duration, recorded: bool|
        is_shown(start) && #[trigger] is_elapsed(start, elapsed) && #[trigger] is_ended(
            before,
            after,
            func,
            elapsed,
            recorded,
        )
}

/// The times `after` these steps are those `before` them, with each step measured in its turn.
pub open spec fn are_measured(
    before: Seq<Duration>,
    after: Seq<Duration>,
    steps: Seq<FnIndex>,
) -> bool
    decreases steps.len(),
{
    if steps.len() == 0 {
        after == before
    } else {
        exists|middle: Seq<Duration>|
            are_measured(before, middle, steps.drop_last()) && #[trigger] is_measured(
                middle,
                after,
                steps.last(),
            )
    }
}

/// One more step is measured.
pub(crate) proof fn lemma_measured_next(
    before: Seq<Duration>,
    middle: Seq<Duration>,
    after: Seq<Duration>,
    steps: Seq<FnIndex>,
    func: FnIndex,
)
    requires
        are_measured(before, middle, steps),
        is_measured(middle, after, func),
    ensures
        are_measured(before, after, steps.push(func)),
{
    assert(steps.push(func).drop_last() =~= steps);
    assert(is_measured(middle, after, steps.push(func).last()));
}

/// Steps that are measured one behind the other are measured together.
pub proof fn law_measuring_concatenates(
    before: Seq<Duration>,
    middle: Seq<Duration>,
    after: Seq<Duration>,
    a: Seq<FnIndex>,
    b: Seq<FnIndex>,
)
    requires
        are_measured(before, middle, a),
        are_measured(middle, after, b),
    ensures
        are_measured(before, after, a + b),
    decreases b.len(),
{
    if b.len() == 0 {
        assert(a + b =~= a);
    } else {
        let last = choose|last: Seq<Duration>|
            are_measured(middle, last, b.drop_last()) && #[trigger] is_measured(
                last,
                after,
                b.last(),
            );
        law_measuring_concatenates(before, middle, last, a, b.drop_last());
        lemma_measured_next(before, last, after, a + b.drop_last(), b.last());
        assert((a + b.drop_last()).push(b.last()) =~= a + b);
    }
}

/// The times of these steps are the same `after` as `before`.
pub open spec fn times_stay(
    before: Seq<Duration>,
    after: Seq<Duration>,
    steps: Seq<FnIndex>,
) -> bool {
    forall|k: int|
        0 <= k < steps.len() ==> after[(#[trigger] steps[k]).slot_of()]
            == before[steps[k].slot_of()]
}

/// The line of the report for a step.
pub open spec fn label_of(func: FnIndex) -> Seq<char> {
    match func {
        FnIndex::TokenEmbedding => "Token Embedding : "@,
        FnIndex::RmsNormInput => "Input RMSNorm   : "@,
        FnIndex::QkvProj => "QKV Projection  : "@,
        FnIndex::rope => "RoPE            : "@,
        FnIndex::AttentionScore => "Attention Score : "@,
        FnIndex::Softmax => "Softmax         : "@,
        FnIndex::OutProj => "Out Projection  : "@,
        FnIndex::MlpBlock => "MLP Block       : "@,
        FnIndex::LmHead => "LM Head         : "@,
        FnIndex::TokenizerDecode => "Token Decode    : "@,
    }
}

/// The steps in the order of the report.
pub open spec fn report_order() -> Seq<FnIndex> {
    seq![
        FnIndex::TokenEmbedding,
        FnIndex::RmsNormInput,
        FnIndex::QkvProj,
        FnIndex::rope,
        FnIndex::AttentionScore,
        FnIndex::Softmax,
        FnIndex::OutProj,
        FnIndex::MlpBlock,
        FnIndex::LmHead,
        FnIndex::TokenizerDecode,
    ]
}

fn label(func: FnIndex) -> (r: String)
    ensures
        r@ == label_of(func),
{
    match func {
        FnIndex::TokenEmbedding => "Token Embedding : ".to_owned(),
        FnIndex::RmsNormInput => "Input RMSNorm   : ".to_owned(),
        FnIndex::QkvProj => "QKV Projection  : ".to_owned(),
        FnIndex::rope => "RoPE            : ".to_owned(),
        FnIndex::AttentionScore => "Attention Score : ".to_owned(),
        FnIndex::Softmax => "Softmax         : ".to_owned(),
        FnIndex::OutProj => "Out Projection  : ".to_owned(),
        FnIndex::MlpBlock => "MLP Block       : ".to_owned(),
        FnIndex::LmHead => "LM Head         : ".to_owned(),
        FnIndex::TokenizerDecode => "Token Decode    : ".to_owned(),
    }
}

impl GlobalMonitor {
    /// A monitor by which no step has taken any time. It starts now.
    pub fn new() -> (r: Self)
        ensures
            all_zero(r.accum_times@),
            is_shown(r.start_slot),
    {
        let zero = no_time();
        GlobalMonitor { accum_times: [zero;10], start_slot: now() }
    }

    /// Forgets all times.
    pub fn reset(&mut self)
        ensures
            all_zero(final(self).accum_times@),
            final(self).start_slot == old(self).start_slot,
    {
        let zero = no_time();
        self.accum_times = [zero;10];
    }

    /// Starts a step, at the time that the clock shows.
    pub fn enter(&mut self)
        ensures
            is_shown(final(self).start_slot),
            final(self).accum_times@ == old(self).accum_times@,
    {
        self.start_slot = now();
    }

    /// Ends a step that took `elapsed`. Where its times would be more than a `Duration` holds,
    /// nothing is added and the answer is `false`.
    pub fn record(&mut self, func: FnIndex, elapsed: Duration) -> (r: bool)
        ensures
            final(self).start_slot == old(self).start_slot,
            is_ended(old(self).accum_times@, final(self).accum_times@, func, elapsed, r),
    {
        let i = func.slot();
        match total_time(self.accum_times[i], elapsed) {
            Some(sum) => {
                self.accum_times[i] = sum;
                true
            },
            None => false,
        }
    }

    /// Ends a step that was started by [`GlobalMonitor::enter`]: the time that has passed since is
    /// added to the step's. Where its times would be more than a `Duration` holds, nothing is added
    /// and the answer is `false`.
    pub fn exit(&mut self, func: FnIndex) -> (r: bool)
        ensures
            final(self).start_slot == old(self).start_slot,
            exists|elapsed: Duration| #[trigger]
                is_elapsed(old(self).start_slot, elapsed) && is_ended(
                    old(self).accum_times@,
                    final(self).accum_times@,
                    func,
                    elapsed,
                    r,
                ),
            times_grow(old(self).accum_times@, final(self).accum_times@),
    {
        let elapsed = elapsed_since(&self.start_slot);
        self.record(func, elapsed)
    }

    /// The lines of the report: what each step is called and how long it took.
    pub fn report(&self) -> (r: Vec<(String, Duration)>)
        ensures
            r@.len() == report_order().len(),
            forall|i: int|
                0 <= i < r@.len() ==> {
                    &&& (#[trigger] r@[i]).0@ == label_of(report_order()[i])
                    &&& r@[i].1 == self.accum_times@[report_order()[i].slot_of()]
                },
    {
        let order = vec![
            FnIndex::TokenEmbedding,
            FnIndex::RmsNormInput,
            FnIndex::QkvProj,
            FnIndex::rope,
            FnIndex::AttentionScore,
            FnIndex::Softmax,
            FnIndex::OutProj,
            FnIndex::MlpBlock,
            FnIndex::LmHead,
            FnIndex::TokenizerDecode,
        ];
        assert(order@ =~= report_order());
        let mut r: Vec<(String, Duration)> = Vec::new();
        let mut i: usize = 0;
        while i < order.len()
            invariant
                i <= order@.len(),
                order@ == report_order(),
                r@.len() == i,
                forall|k: int|
                    0 <= k < i ==> {
                        &&& (#[trigger] r@[k]).0@ == label_of(report_order()[k])
                        &&& r@[k].1 == self.accum_times@[report_order()[k].slot_of()]
                    },
            decreases order@.len() - i,
        {
            let func = order[i];
            r.push((label(func), self.accum_times[func.slot()]));
            i += 1;
        }
        r
    }
}

} // verus!
