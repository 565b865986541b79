//! Frecency scoring of resources from a bounded log of visits.
//!
//! A scorer counts every visit and keeps the most recent ones. The score
//! weighs each kept visit by its priority and its age, and scales the
//! average by the total number of visits.

use vstd::prelude::*;

verus! {

/// The number of visits a scorer keeps.
pub const MAX_VISIT_ENTRIES: usize = 10;

/// The largest visit count a scorer holds: the score of any scorer within
/// this limit fits in 32 bits.
pub const MAX_VISIT_COUNT: u32 = 21_474_836;

/// The number of microseconds in a day.
pub const MICROS_PER_DAY: i64 = 86_400_000_000;

/// How much a visit counts.
#[derive(Debug, Clone, Copy, PartialEq, Eq, Structural)]
pub enum VisitPriority {
    Normal,
    High,
    VeryHigh,
}

impl VisitPriority {
    /// The percentage bonus of a priority.
    pub open spec fn bonus_spec(self) -> nat {
        match self {
            VisitPriority::Normal => 100,
            VisitPriority::High => 150,
            VisitPriority::VeryHigh => 200,
        }
    }

    /// Percentage bonus based on the visit priority.
    pub fn bonus(&self) -> (bonus: u32)
        ensures
            bonus == self.bonus_spec(),
    {
        match self {
            VisitPriority::Normal => 100,
            VisitPriority::High => 150,
            VisitPriority::VeryHigh => 200,
        }
    }
}

/// One visit: when it happened, in microseconds since the Unix epoch, and
/// how much it counts.
#[derive(Debug, Clone, Copy, PartialEq, Eq, Structural)]
pub struct VisitEntry {
    pub timestamp: i64,
    pub priority: VisitPriority,
}

/// Reads the clock through `chrono::Utc::now` and converts the instant with
/// `DateTime::timestamp_micros`. Nothing is claimed of the value: it changes
/// from one call to the next.
#[verifier::external_body]
pub(crate) fn now_micros() -> (now: i64) {
    chrono::Utc::now().timestamp_micros()
}

impl VisitEntry {
    pub fn new(when: i64, priority: VisitPriority) -> (entry: Self)
        ensures
            entry.timestamp == when,
            entry.priority == priority,
    {
        VisitEntry { timestamp: when, priority }
    }

    /// A visit that happens at the time of the call.
    pub fn now(priority: VisitPriority) -> (entry: Self)
        ensures
            entry.priority == priority,
    {
        VisitEntry { timestamp: now_micros(), priority }
    }
}

/// The whole days between `when` and `now`, rounded down.
pub open spec fn age_days(now: i64, when: i64) -> int {
    (now - when) / (MICROS_PER_DAY as int)
}

/// The weight of a visit by its age in days.
pub open spec fn age_weight(days: int) -> nat {
    if days <= 4 {
        100
    } else if days <= 14 {
        70
    } else if days <= 31 {
        50
    } else if days <= 90 {
        30
    } else {
        10
    }
}

/// The points of one visit as seen at `now`.
pub open spec fn point(entry: VisitEntry, now: i64) -> nat {
    entry.priority.bonus_spec() * age_weight(age_days(now, entry.timestamp)) / 100
}

/// The points of all the visits of a log.
pub open spec fn points_sum(entries: Seq<VisitEntry>, now: i64) -> nat
    decreases entries.len(),
{
    if entries.len() == 0 {
        0
    } else {
        points_sum(entries.drop_last(), now) + point(entries.last(), now)
    }
}

/// What a scorer holds: the number of visits ever added and the visits
/// that are kept, oldest first.
pub struct ScorerModel {
    pub visit_count: nat,
    pub entries: Seq<VisitEntry>,
}

impl ScorerModel {
    /// The log is bounded, no visit is kept that was not counted, and
    /// nothing was dropped before the log was full.
    pub open spec fn wf(self) -> bool {
        &&& self.entries.len() <= MAX_VISIT_ENTRIES
        &&& self.entries.len() <= self.visit_count
        &&& self.visit_count <= MAX_VISIT_COUNT
        &&& self.entries.len() < MAX_VISIT_ENTRIES ==> self.visit_count == self.entries.len()
    }

    /// The scorer without any visit.
    pub open spec fn empty() -> ScorerModel {
        ScorerModel { visit_count: 0, entries: Seq::empty() }
    }

    /// The scorer after one more visit: the oldest kept visit leaves when
    /// the log is full.
    pub open spec fn add(self, entry: VisitEntry) -> ScorerModel {
        ScorerModel {
            visit_count: self.visit_count + 1,
            entries: if self.entries.len() >= MAX_VISIT_ENTRIES {
                self.entries.drop_first().push(entry)
            } else {
                self.entries.push(entry)
            },
        }
    }

    /// The score as seen at `now`.
    pub open spec fn frecency(self, now: i64) -> nat {
        if self.entries.len() == 0 {
            0
        } else {
            self.visit_count * points_sum(self.entries, now) / self.entries.len()
        }
    }
}

/// The product of a bonus and a weight is a whole number of hundreds, so a
/// point is exact: no rounding ever takes place.
pub proof fn lemma_point_is_exact(entry: VisitEntry, now: i64)
    ensures
        point(entry, now) * 100 == entry.priority.bonus_spec() * age_weight(
            age_days(now, entry.timestamp),
        ),
        10 <= point(entry, now) <= 200,
        entry.priority == VisitPriority::Normal ==> point(entry, now) == age_weight(
            age_days(now, entry.timestamp),
        ),
        entry.priority == VisitPriority::High ==> 2 * point(entry, now) == 3 * age_weight(
            age_days(now, entry.timestamp),
        ),
        entry.priority == VisitPriority::VeryHigh ==> point(entry, now) == 2 * age_weight(
            age_days(now, entry.timestamp),
        ),
{
    let w = age_weight(age_days(now, entry.timestamp));
    let b = entry.priority.bonus_spec();
    assert(w == 100 || w == 70 || w == 50 || w == 30 || w == 10);
    assert(b == 100 || b == 150 || b == 200);
    assert(b * w == 100 * (b * w / 100) && 10 <= b * w / 100 <= 200) by {
        if b == 100 {
            assert(b * w == 100 * w);
        } else if b == 150 {
            assert(b * w == 150 * w);
        } else {
            assert(b * w == 200 * w);
        }
    }
}

/// The points of a log lie between 10 and 200 for each visit.
pub proof fn lemma_points_sum_bounds(entries: Seq<VisitEntry>, now: i64)
    ensures
        10 * entries.len() <= points_sum(entries, now) <= 200 * entries.len(),
    decreases entries.len(),
{
    if entries.len() > 0 {
        lemma_points_sum_bounds(entries.drop_last(), now);
        lemma_point_is_exact(entries.last(), now);
    }
}

/// Adding a visit at the end adds its points.
pub proof fn lemma_points_sum_push(entries: Seq<VisitEntry>, entry: VisitEntry, now: i64)
    ensures
        points_sum(entries.push(entry), now) == points_sum(entries, now) + point(entry, now),
{
    assert(entries.push(entry).drop_last() =~= entries);
}

/// Dropping the oldest visit takes its points away.
pub proof fn lemma_points_sum_drop_first(entries: Seq<VisitEntry>, now: i64)
    requires
        entries.len() > 0,
    ensures
        points_sum(entries, now) == point(entries[0], now) + points_sum(entries.drop_first(), now),
    decreases entries.len(),
{
    if entries.len() == 1 {
        assert(entries.drop_last() =~= Seq::<VisitEntry>::empty());
        assert(entries.drop_first() =~= Seq::<VisitEntry>::empty());
    } else {
        lemma_points_sum_drop_first(entries.drop_last(), now);
        assert(entries.drop_last().drop_first() =~= entries.drop_first().drop_last());
        assert(entries.drop_first().last() == entries.last());
        assert(entries.drop_last()[0] == entries[0]);
    }
}

/// The score of a well-formed scorer fits in 32 bits.
pub proof fn lemma_frecency_bound(model: ScorerModel, now: i64)
    requires
        model.wf(),
    ensures
        model.frecency(now) <= 200 * model.visit_count,
        model.frecency(now) <= u32::MAX,
{
    if model.entries.len() > 0 {
        lemma_points_sum_bounds(model.entries, now);
        let c = model.visit_count as int;
        let s = points_sum(model.entries, now) as int;
        let n = model.entries.len() as int;
        assert(c * s <= c * (200 * n)) by (nonlinear_arith)
            requires
                0 <= c,
                0 <= s <= 200 * n,
        ;
        assert(c * (200 * n) == (200 * c) * n) by (nonlinear_arith);
        assert((c * s) / n <= 200 * c) by (nonlinear_arith)
            requires
                n > 0,
                0 <= c * s <= (200 * c) * n,
        ;
    }
}

/// A scorer that can count one more visit stays well formed when it counts
/// it.
pub proof fn lemma_add_keeps_wf(model: ScorerModel, entry: VisitEntry)
    requires
        model.wf(),
        model.visit_count < MAX_VISIT_COUNT,
    ensures
        model.add(entry).wf(),
{
}

/// A visit is always counted. While the log is not full, the score as seen
/// at one instant grows by the points of the new visit; once it is full,
/// the score does not fall when the new visit is worth at least as much as
/// the one that leaves.
pub proof fn lemma_visit_counts_and_raises(model: ScorerModel, entry: VisitEntry, now: i64)
    requires
        model.wf(),
    ensures
        model.add(entry).visit_count == model.visit_count + 1,
        model.entries.len() < MAX_VISIT_ENTRIES ==> model.add(entry).frecency(now)
            == model.frecency(now) + point(entry, now),
        model.entries.len() == MAX_VISIT_ENTRIES && point(entry, now) >= point(
            model.entries[0],
            now,
        ) ==> model.add(entry).frecency(now) >= model.frecency(now),
{
    let after = model.add(entry);
    let n = model.entries.len() as int;
    let s = points_sum(model.entries, now) as int;
    let p = point(entry, now) as int;
    if model.entries.len() < MAX_VISIT_ENTRIES {
        lemma_points_sum_push(model.entries, entry, now);
        assert(after.entries.len() == n + 1);
        assert(after.visit_count == n + 1);
        assert(((n + 1) * (s + p)) / (n + 1) == s + p) by (nonlinear_arith)
            requires
                n >= 0,
        ;
        if n > 0 {
            assert((n * s) / n == s) by (nonlinear_arith)
                requires
                    n > 0,
            ;
        } else {
            assert(model.entries =~= Seq::<VisitEntry>::empty());
        }
    } else if p >= point(model.entries[0], now) {
        let rest = model.entries.drop_first();
        lemma_points_sum_drop_first(model.entries, now);
        lemma_points_sum_push(rest, entry, now);
        let s2 = points_sum(after.entries, now) as int;
        let c = model.visit_count as int;
        assert(s2 >= s);
        assert(after.entries.len() == n);
        assert(((c + 1) * s2) / n >= (c * s) / n) by (nonlinear_arith)
            requires
                n > 0,
                c >= 0,
                s2 >= s,
                s >= 0,
        ;
    }
}

/// A frecency scorer.
#[derive(Debug, PartialEq)]
pub struct Scorer {
    visit_count: u32,
    entries: Vec<VisitEntry>,
}

impl View for Scorer {
    type V = ScorerModel;

    closed spec fn view(&self) -> ScorerModel {
        ScorerModel { visit_count: self.visit_count as nat, entries: self.entries@ }
    }
}

/// The weight of a visit made at `when`, as seen at `now`.
fn weight_for(now: i64, when: i64) -> (weight: u32)
    ensures
        weight == age_weight(age_days(now, when)),
{
    let age: i128 = now as i128 - when as i128;
    let day: i128 = MICROS_PER_DAY as i128;
    if age < 5 * day {
        100
    } else if age < 15 * day {
        70
    } else if age < 32 * day {
        50
    } else if age < 91 * day {
        30
    } else {
        10
    }
}

impl Default for Scorer {
    fn default() -> (scorer: Self)
        ensures
            scorer@ == ScorerModel::empty(),
            scorer.wf(),
    {
        Scorer { visit_count: 0, entries: Vec::new() }
    }
}

impl Clone for Scorer {
    fn clone(&self) -> (copy: Self)
        ensures
            copy@ == self@,
    {
        Scorer { visit_count: self.visit_count, entries: self.entries.clone() }
    }
}

impl Scorer {
    /// Every scorer that the library hands out is well formed.
    pub open spec fn wf(&self) -> bool {
        self@.wf()
    }

    /// A scorer with the given count and kept visits, if they can belong
    /// together.
    pub fn from_parts(visit_count: u32, entries: Vec<VisitEntry>) -> (scorer: Option<Self>)
        ensures
            (ScorerModel { visit_count: visit_count as nat, entries: entries@ }).wf()
                <==> scorer is Some,
            scorer matches Some(s) ==> s@ == (ScorerModel {
                visit_count: visit_count as nat,
                entries: entries@,
            }),
    {
        let n = entries.len();
        if n > MAX_VISIT_ENTRIES || visit_count > MAX_VISIT_COUNT || (visit_count as usize) < n
            || (n < MAX_VISIT_ENTRIES && visit_count as usize != n) {
            None
        } else {
            Some(Scorer { visit_count, entries })
        }
    }

    /// The number of visits ever added.
    pub fn visit_count(&self) -> (count: u32)
        ensures
            count == self@.visit_count,
    {
        self.visit_count
    }

    /// The visits that are kept, oldest first.
    pub fn entries(&self) -> (entries: &Vec<VisitEntry>)
        ensures
            entries@ == self@.entries,
    {
        &self.entries
    }

    /// Whether the scorer is well formed.
    pub fn is_valid(&self) -> (valid: bool)
        ensures
            valid == self.wf(),
    {
        let n = self.entries.len();
        n <= MAX_VISIT_ENTRIES && self.visit_count <= MAX_VISIT_COUNT && n <= self.visit_count as usize
            && (n == MAX_VISIT_ENTRIES || self.visit_count as usize == n)
    }

    /// Whether one more visit can be counted.
    pub fn can_add(&self) -> (ok: bool)
        ensures
            ok == (self@.visit_count < MAX_VISIT_COUNT),
    {
        self.visit_count < MAX_VISIT_COUNT
    }

    /// Counts a visit and keeps it; the oldest kept visit leaves to make
    /// room when the log is full.
    pub fn add(&mut self, entry: &VisitEntry)
        requires
            old(self).wf(),
            old(self)@.visit_count < MAX_VISIT_COUNT,
        ensures
            final(self)@ == old(self)@.add(*entry),
            final(self).wf(),
    {
        if self.entries.len() == MAX_VISIT_ENTRIES {
            let _ = self.entries.remove(0);
            assert(self.entries@ =~= old(self).entries@.drop_first());
        }
        self.entries.push(*entry);
        self.visit_count += 1;
    }

    /// The score as seen at `now`, in microseconds since the Unix epoch.
    pub fn frecency_at(&self, now: i64) -> (score: u32)
        requires
            self.wf(),
        ensures
            score == self@.frecency(now),
    {
        let n = self.entries.len();
        if n == 0 {
            return 0;
        }
        let mut sum: u64 = 0;
        let mut i: usize = 0;
        while i < n
            invariant
                n == self.entries@.len(),
                n <= MAX_VISIT_ENTRIES,
                i <= n,
                sum == points_sum(self.entries@.subrange(0, i as int), now),
                sum <= 200 * i,
            decreases n - i,
        {
            let entry = self.entries[i];
            let bonus = entry.priority.bonus();
            let weight = weight_for(now, entry.timestamp);
            assert(bonus * weight <= 20_000) by (nonlinear_arith)
                requires
                    bonus <= 200,
                    weight <= 100,
            ;
            let product: u32 = bonus * weight;
            proof {
                lemma_point_is_exact(entry, now);
                assert(self.entries@.subrange(0, i + 1).drop_last() =~= self.entries@.subrange(
                    0,
                    i as int,
                ));
            }
            sum = sum + (product / 100) as u64;
            i += 1;
        }
        proof {
            assert(self.entries@.subrange(0, n as int) =~= self.entries@);
            lemma_frecency_bound(self@, now);
            assert(self.visit_count * sum <= MAX_VISIT_COUNT * 2000) by (nonlinear_arith)
                requires
                    self.visit_count <= MAX_VISIT_COUNT,
                    sum <= 2000,
            ;
        }
        let total: u64 = (self.visit_count as u64) * sum / (n as u64);
        total as u32
    }

    /// The score as seen now.
    pub fn frecency(&self) -> (score: u32)
        requires
            self.wf(),
        ensures
            exists|now: i64| score == self@.frecency(now),
            self@.entries.len() == 0 ==> score == 0,
            score <= 200 * self@.visit_count,
    {
        let now = now_micros();
        proof {
            lemma_frecency_bound(self@, now);
        }
        self.frecency_at(now)
    }
}


/// The digits of `value` in base 256, least significant first, `width` of
/// them.
pub open spec fn le_bytes(value: nat, width: nat) -> Seq<u8>
    decreases width,
{
    if width == 0 {
        Seq::empty()
    } else {
        seq![(value % 256) as u8] + le_bytes(value / 256, (width - 1) as nat)
    }
}

/// The number whose base-256 digits, least significant first, are `bytes`.
pub open spec fn le_value(bytes: Seq<u8>) -> nat
    decreases bytes.len(),
{
    if bytes.len() == 0 {
        0
    } else {
        bytes[0] as nat + 256 * le_value(bytes.drop_first())
    }
}

/// 256 to the power of `width`.
pub open spec fn radix(width: nat) -> nat
    decreases width,
{
    if width == 0 {
        1
    } else {
        256 * radix((width - 1) as nat)
    }
}

/// The powers of 256 up to the eighth.
pub proof fn lemma_radix_values()
    ensures
        radix(0) == 1,
        radix(1) == 0x100,
        radix(2) == 0x1_0000,
        radix(3) == 0x100_0000,
        radix(4) == 0x1_0000_0000,
        radix(5) == 0x100_0000_0000,
        radix(6) == 0x1_0000_0000_0000,
        radix(7) == 0x100_0000_0000_0000,
        radix(8) == 0x1_0000_0000_0000_0000,
{
    reveal_with_fuel(radix, 10);
}

/// A number is written in as many bytes as are asked for.
pub proof fn lemma_le_bytes_len(value: nat, width: nat)
    ensures
        le_bytes(value, width).len() == width,
    decreases width,
{
    if width > 0 {
        lemma_le_bytes_len(value / 256, (width - 1) as nat);
    }
}

/// What is read from bytes is less than the power of 256 of their number.
pub proof fn lemma_le_value_bound(bytes: Seq<u8>)
    ensures
        le_value(bytes) < radix(bytes.len()),
    decreases bytes.len(),
{
    if bytes.len() > 0 {
        lemma_le_value_bound(bytes.drop_first());
    }
}

/// Reading the digits of a number that fits gives the number back.
pub proof fn lemma_le_bytes_value(value: nat, width: nat)
    requires
        value < radix(width),
    ensures
        le_value(le_bytes(value, width)) == value,
    decreases width,
{
    if width > 0 {
        let rest = le_bytes(value / 256, (width - 1) as nat);
        lemma_le_bytes_value(value / 256, (width - 1) as nat);
        assert(le_bytes(value, width).drop_first() =~= rest);
    }
}

/// Writing the digits of what was read gives the bytes back.
pub proof fn lemma_le_value_bytes(bytes: Seq<u8>)
    ensures
        le_bytes(le_value(bytes), bytes.len()) == bytes,
    decreases bytes.len(),
{
    if bytes.len() > 0 {
        let rest = bytes.drop_first();
        lemma_le_value_bytes(rest);
        let v = le_value(bytes);
        assert(v % 256 == bytes[0] as nat);
        assert(v / 256 == le_value(rest));
        assert(le_bytes(v, bytes.len()) =~= bytes);
    } else {
        assert(le_bytes(le_value(bytes), 0) =~= bytes);
    }
}

/// The tag that stands for a priority.
pub open spec fn priority_tag(priority: VisitPriority) -> u8 {
    match priority {
        VisitPriority::Normal => 0,
        VisitPriority::High => 1,
        VisitPriority::VeryHigh => 2,
    }
}

/// A timestamp as an unsigned 64-bit word, in two's complement.
pub open spec fn timestamp_word(timestamp: i64) -> nat {
    if timestamp >= 0 {
        timestamp as nat
    } else {
        (timestamp + 0x1_0000_0000_0000_0000) as nat
    }
}

/// One visit in binary: the timestamp in 8 bytes, then the priority's tag.
pub open spec fn entry_bytes(entry: VisitEntry) -> Seq<u8> {
    le_bytes(timestamp_word(entry.timestamp), 8) + seq![priority_tag(entry.priority)]
}

/// The visits of a log in binary, one after the other.
pub open spec fn entries_bytes(entries: Seq<VisitEntry>) -> Seq<u8>
    decreases entries.len(),
{
    if entries.len() == 0 {
        Seq::empty()
    } else {
        entries_bytes(entries.drop_last()) + entry_bytes(entries.last())
    }
}

/// A scorer in binary: the visit count and the number of kept visits, each
/// in 4 bytes, then the visits. All numbers are little-endian.
pub open spec fn scorer_bytes(model: ScorerModel) -> Seq<u8> {
    le_bytes(model.visit_count, 4) + le_bytes(model.entries.len(), 4) + entries_bytes(
        model.entries,
    )
}

/// The scorer that a byte string stands for, if it is the binary form of a
/// well-formed scorer.
pub open spec fn scorer_decoding(bytes: Seq<u8>) -> Option<ScorerModel> {
    if exists|model: ScorerModel| model.wf() && scorer_bytes(model) == bytes {
        Some(choose|model: ScorerModel| model.wf() && scorer_bytes(model) == bytes)
    } else {
        None
    }
}

/// What is decoded is a well-formed scorer, and the bytes are its binary
/// form.
pub proof fn lemma_decoding_wf(bytes: Seq<u8>)
    ensures
        scorer_decoding(bytes) matches Some(model) ==> model.wf() && scorer_bytes(model) == bytes,
{
}

/// The bytes of the visit at place `index` of a binary scorer.
pub open spec fn entry_slot(bytes: Seq<u8>, index: int) -> Seq<u8> {
    bytes.subrange(8 + 9 * index, 17 + 9 * index)
}

proof fn lemma_entries_layout(entries: Seq<VisitEntry>)
    ensures
        entries_bytes(entries).len() == 9 * entries.len(),
        forall|i: int|
            0 <= i < entries.len() ==> #[trigger] entries_bytes(entries).subrange(9 * i, 9 * i + 9)
                == entry_bytes(entries[i]),
    decreases entries.len(),
{
    if entries.len() > 0 {
        let front = entries.drop_last();
        lemma_entries_layout(front);
        lemma_le_bytes_len(timestamp_word(entries.last().timestamp), 8);
        let all = entries_bytes(entries);
        assert forall|i: int| 0 <= i < entries.len() implies #[trigger] all.subrange(
            9 * i,
            9 * i + 9,
        ) == entry_bytes(entries[i]) by {
            if i < front.len() {
                assert(all.subrange(9 * i, 9 * i + 9) =~= entries_bytes(front).subrange(
                    9 * i,
                    9 * i + 9,
                ));
                assert(front[i] == entries[i]);
            } else {
                assert(all.subrange(9 * i, 9 * i + 9) =~= entry_bytes(entries.last()));
            }
        }
    }
}

/// Where each part of a scorer lies in its binary form.
pub proof fn lemma_scorer_layout(model: ScorerModel)
    requires
        model.visit_count < 0x1_0000_0000,
        model.entries.len() < 0x1_0000_0000,
    ensures
        scorer_bytes(model).len() == 8 + 9 * model.entries.len(),
        le_value(scorer_bytes(model).subrange(0, 4)) == model.visit_count,
        le_value(scorer_bytes(model).subrange(4, 8)) == model.entries.len(),
        forall|i: int|
            0 <= i < model.entries.len() ==> #[trigger] entry_slot(scorer_bytes(model), i)
                == entry_bytes(model.entries[i]),
{
    let bytes = scorer_bytes(model);
    lemma_radix_values();
    lemma_le_bytes_len(model.visit_count, 4);
    lemma_le_bytes_len(model.entries.len(), 4);
    lemma_le_bytes_value(model.visit_count, 4);
    lemma_le_bytes_value(model.entries.len(), 4);
    lemma_entries_layout(model.entries);
    assert(bytes.subrange(0, 4) =~= le_bytes(model.visit_count, 4));
    assert(bytes.subrange(4, 8) =~= le_bytes(model.entries.len(), 4));
    assert forall|i: int| 0 <= i < model.entries.len() implies #[trigger] entry_slot(bytes, i)
        == entry_bytes(model.entries[i]) by {
        assert(entry_slot(bytes, i) =~= entries_bytes(model.entries).subrange(9 * i, 9 * i + 9));
    }
}

/// What a binary visit says of the visit it stands for.
pub proof fn lemma_entry_layout(entry: VisitEntry)
    ensures
        entry_bytes(entry).len() == 9,
        le_value(entry_bytes(entry).subrange(0, 8)) == timestamp_word(entry.timestamp),
        entry_bytes(entry)[8] == priority_tag(entry.priority),
        priority_tag(entry.priority) < 3,
{
    lemma_radix_values();
    lemma_le_bytes_len(timestamp_word(entry.timestamp), 8);
    lemma_le_bytes_value(timestamp_word(entry.timestamp), 8);
    assert(entry_bytes(entry).subrange(0, 8) =~= le_bytes(timestamp_word(entry.timestamp), 8));
}

/// Two well-formed scorers with the same binary form are the same.
pub proof fn lemma_scorer_bytes_injective(a: ScorerModel, b: ScorerModel)
    requires
        a.wf(),
        b.wf(),
        scorer_bytes(a) == scorer_bytes(b),
    ensures
        a == b,
{
    lemma_scorer_layout(a);
    lemma_scorer_layout(b);
    assert forall|i: int| 0 <= i < a.entries.len() implies a.entries[i] == b.entries[i] by {
        assert(entry_slot(scorer_bytes(a), i) == entry_bytes(a.entries[i]));
        assert(entry_slot(scorer_bytes(b), i) == entry_bytes(b.entries[i]));
        lemma_entry_layout(a.entries[i]);
        lemma_entry_layout(b.entries[i]);
    }
    assert(a.entries =~= b.entries);
}

/// Decoding the binary form of a well-formed scorer gives the scorer back.
pub proof fn lemma_scorer_round_trip(model: ScorerModel)
    requires
        model.wf(),
    ensures
        scorer_decoding(scorer_bytes(model)) == Some(model),
{
    let bytes = scorer_bytes(model);
    let found = choose|m: ScorerModel| m.wf() && scorer_bytes(m) == bytes;
    lemma_scorer_bytes_injective(found, model);
}

/// Appends the `width` low bytes of `value`, least significant first.
fn push_le(out: &mut Vec<u8>, value: u64, width: usize)
    requires
        width <= 8,
    ensures
        final(out)@ == old(out)@ + le_bytes(value as nat, width as nat),
{
    let mut rest: u64 = value;
    let mut i: usize = 0;
    assert(out@ + le_bytes(rest as nat, width as nat) =~= old(out)@ + le_bytes(
        value as nat,
        width as nat,
    ));
    while i < width
        invariant
            i <= width,
            out@ + le_bytes(rest as nat, (width - i) as nat) == old(out)@ + le_bytes(
                value as nat,
                width as nat,
            ),
        decreases width - i,
    {
        let ghost before = out@;
        out.push((rest % 256) as u8);
        proof {
            let tail = le_bytes((rest / 256) as nat, (width - i - 1) as nat);
            assert(before + le_bytes(rest as nat, (width - i) as nat) =~= out@ + tail);
        }
        rest = rest / 256;
        i += 1;
    }
    assert(out@ + le_bytes(rest as nat, 0) =~= out@);
}

/// Reads `width` bytes at `at` as a number, least significant byte first.
fn read_le(bytes: &[u8], at: usize, width: usize) -> (value: u64)
    requires
        width <= 8,
        at + width <= bytes@.len(),
    ensures
        value == le_value(bytes@.subrange(at as int, at + width)),
{
    let mut acc: u64 = 0;
    let mut i: usize = width;
    let total = bytes.len();
    while i > 0
        invariant
            i <= width <= 8,
            at + width <= bytes@.len(),
            total == bytes@.len(),
            acc == le_value(bytes@.subrange(at + i, at + width)),
        decreases i,
    {
        proof {
            let upper = bytes@.subrange(at + i, at + width);
            lemma_le_value_bound(upper);
            lemma_radix_values();
            assert(radix(upper.len()) <= radix(7)) by {
                reveal_with_fuel(radix, 10);
            }
            let wider = bytes@.subrange(at + i - 1, at + width);
            assert(wider.drop_first() =~= upper);
        }
        i -= 1;
        acc = acc * 256 + bytes[at + i] as u64;
    }
    acc
}

fn timestamp_to_word(timestamp: i64) -> (word: u64)
    ensures
        word == timestamp_word(timestamp),
{
    if timestamp >= 0 {
        timestamp as u64
    } else {
        ((timestamp - i64::MIN) as u64) + 0x8000_0000_0000_0000u64
    }
}

fn word_to_timestamp(word: u64) -> (timestamp: i64)
    ensures
        timestamp_word(timestamp) == word,
{
    if word < 0x8000_0000_0000_0000u64 {
        word as i64
    } else {
        ((word - 0x8000_0000_0000_0000u64) as i64) + i64::MIN
    }
}

impl Scorer {
    /// The highest score of a scorer that has counted as many visits as it
    /// keeps: the score of a log full of visits of the highest priority,
    /// seen at the instant at which they were made.
    pub fn max() -> (score: u32)
        ensures
            score == 2000,
    {
        let mut scorer = Scorer::default();
        let now = now_micros();
        let mut i: usize = 0;
        while i < MAX_VISIT_ENTRIES
            invariant
                i <= MAX_VISIT_ENTRIES,
                scorer.wf(),
                scorer@.visit_count == i,
                scorer@.entries.len() == i,
                points_sum(scorer@.entries, now) == 200 * i,
            decreases MAX_VISIT_ENTRIES - i,
        {
            let entry = VisitEntry::new(now, VisitPriority::VeryHigh);
            proof {
                lemma_points_sum_push(scorer@.entries, entry, now);
                assert(point(entry, now) == 200) by {
                    assert(age_days(now, now) == 0);
                }
            }
            scorer.add(&entry);
            i += 1;
        }
        scorer.frecency_at(now)
    }

    /// The binary form of the scorer.
    pub fn as_binary(&self) -> (bytes: Vec<u8>)
        requires
            self.wf(),
        ensures
            bytes@ == scorer_bytes(self@),
    {
        let mut out: Vec<u8> = Vec::new();
        push_le(&mut out, self.visit_count as u64, 4);
        push_le(&mut out, self.entries.len() as u64, 4);
        let ghost head = out@;
        let n = self.entries.len();
        let mut i: usize = 0;
        assert(entries_bytes(self.entries@.subrange(0, 0)) =~= Seq::<u8>::empty());
        assert(out@ =~= head + entries_bytes(self.entries@.subrange(0, 0)));
        while i < n
            invariant
                n == self.entries@.len(),
                i <= n,
                out@ == head + entries_bytes(self.entries@.subrange(0, i as int)),
            decreases n - i,
        {
            let entry = self.entries[i];
            let ghost before = out@;
            push_le(&mut out, timestamp_to_word(entry.timestamp), 8);
            let tag: u8 = match entry.priority {
                VisitPriority::Normal => 0,
                VisitPriority::High => 1,
                VisitPriority::VeryHigh => 2,
            };
            out.push(tag);
            proof {
                let upto = self.entries@.subrange(0, i + 1);
                assert(upto.drop_last() =~= self.entries@.subrange(0, i as int));
                assert(upto.last() == entry);
                assert(out@ =~= before + entry_bytes(entry));
                assert(out@ =~= head + entries_bytes(upto));
            }
            i += 1;
        }
        assert(self.entries@.subrange(0, n as int) =~= self.entries@);
        out
    }

    /// The scorer that `bytes` is the binary form of, if there is one.
    pub fn decode(bytes: &[u8]) -> (scorer: Option<Scorer>)
        ensures
            match scorer {
                Some(s) => s.wf() && scorer_decoding(bytes@) == Some(s@),
                None => scorer_decoding(bytes@) is None,
            },
    {
        if bytes.len() < 8 {
            proof {
                assert forall|m: ScorerModel| m.wf() implies scorer_bytes(m) != bytes@ by {
                    lemma_scorer_layout(m);
                }
            }
            return None;
        }
        let count = read_le(bytes, 0, 4);
        let n = read_le(bytes, 4, 4);
        proof {
            lemma_radix_values();
            lemma_le_value_bound(bytes@.subrange(0, 4));
            lemma_le_value_bound(bytes@.subrange(4, 8));
        }
        if n > MAX_VISIT_ENTRIES as u64 || count > MAX_VISIT_COUNT as u64 || count < n || (n
            < MAX_VISIT_ENTRIES as u64 && count != n) || bytes.len() != 8 + 9 * (n as usize) {
            proof {
                assert forall|m: ScorerModel| m.wf() implies scorer_bytes(m) != bytes@ by {
                    lemma_scorer_layout(m);
                }
            }
            return None;
        }
        let mut entries: Vec<VisitEntry> = Vec::new();
        let mut i: usize = 0;
        assert(entries_bytes(entries@) =~= bytes@.subrange(8, 8));
        while i < n as usize
            invariant
                n <= MAX_VISIT_ENTRIES,
                bytes@.len() == 8 + 9 * n,
                i <= n,
                entries@.len() == i,
                entries_bytes(entries@) == bytes@.subrange(8, 8 + 9 * i),
                n == le_value(bytes@.subrange(4, 8)),
            decreases n - i,
        {
            let word = read_le(bytes, 8 + 9 * i, 8);
            let tag = bytes[8 + 9 * i + 8];
            let priority = if tag == 0 {
                VisitPriority::Normal
            } else if tag == 1 {
                VisitPriority::High
            } else if tag == 2 {
                VisitPriority::VeryHigh
            } else {
                proof {
                    assert forall|m: ScorerModel| m.wf() implies scorer_bytes(m) != bytes@ by {
                        lemma_scorer_layout(m);
                        if scorer_bytes(m) == bytes@ {
                            assert(entry_slot(scorer_bytes(m), i as int) == entry_bytes(
                                m.entries[i as int],
                            ));
                            lemma_entry_layout(m.entries[i as int]);
                            assert(entry_slot(bytes@, i as int)[8] == bytes@[8 + 9 * i + 8]);
                        }
                    }
                }
                return None;
            };
            let entry = VisitEntry { timestamp: word_to_timestamp(word), priority };
            let ghost before = entries@;
            entries.push(entry);
            proof {
                let slot = bytes@.subrange(8 + 9 * i, 8 + 9 * i + 8);
                lemma_le_value_bytes(slot);
                assert(entries@.drop_last() =~= before);
                assert(entry_bytes(entry) =~= bytes@.subrange(8 + 9 * i, 17 + 9 * i));
                assert(entries_bytes(entries@) =~= bytes@.subrange(8, 8 + 9 * (i + 1)));
            }
            i += 1;
        }
        let scorer = Scorer { visit_count: count as u32, entries };
        proof {
            lemma_le_value_bytes(bytes@.subrange(0, 4));
            lemma_le_value_bytes(bytes@.subrange(4, 8));
            assert(scorer_bytes(scorer@) =~= bytes@);
            lemma_scorer_round_trip(scorer@);
        }
        Some(scorer)
    }

    /// The scorer that `bytes` is the binary form of; the empty scorer when
    /// it is the binary form of none.
    pub fn from_binary(bytes: &[u8]) -> (scorer: Self)
        ensures
            scorer.wf(),
            scorer@ == match scorer_decoding(bytes@) {
                Some(model) => model,
                None => ScorerModel::empty(),
            },
    {
        match Scorer::decode(bytes) {
            Some(scorer) => scorer,
            None => Scorer::default(),
        }
    }
}

} // verus!
