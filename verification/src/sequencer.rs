//! The sequencer: which slot of a measure comes next, at which offset, and
//! with which sample.
//!
//! Within a measure every record has a cursor. The next slot is that of the
//! record whose cursor stands at the smallest fraction of its length, the
//! first such record where several stand alike. Fractions are compared by
//! cross-multiplication, and offsets are whole milliseconds.

use vstd::prelude::*;
use vstd::arithmetic::div_mod::lemma_hoist_over_denominator;
use crate::chart::{BMS, BMSDatum, MAX_MEASURE, SAMPLE_IDS, datum_views, table_view};
use crate::measures::{Measures, is_run};
use crate::samples::{SampleCache, SoundBuffer};

verus! {

/// Milliseconds in a measure of four beats at one beat per minute.
pub const MEASURE_MS_AT_ONE_BPM: u32 = 240000;

/// The length of a measure in milliseconds at `bpm` beats per minute.
pub open spec fn measure_length_ms(bpm: int) -> int {
    240000int / bpm
}

/// The offset in milliseconds of slot `a` of `b` in measure `n`, where a
/// measure lasts `m` milliseconds.
pub open spec fn slot_offset(m: int, n: int, a: int, b: int) -> int {
    (m * n * b + m * a) / b
}

/// The number of slots of the `i`-th record of the group that starts at `start`.
pub open spec fn slot_count(data: Seq<BMSDatum>, start: int, i: int) -> int {
    data[start + i].message@.len() as int
}

/// The `i`-th cursor has slots left.
pub open spec fn is_pending(data: Seq<BMSDatum>, start: int, at: Seq<usize>, i: int) -> bool {
    0 <= i < at.len() && at[i] < slot_count(data, start, i)
}

/// The `i`-th cursor is the one to take: it has slots left, it stands at a
/// smaller fraction than every pending cursor before it, and at no greater
/// fraction than any pending cursor after it.
pub open spec fn is_next(data: Seq<BMSDatum>, start: int, at: Seq<usize>, i: int) -> bool {
    &&& is_pending(data, start, at, i)
    &&& forall|j: int| #[trigger]
        is_pending(data, start, at, j) ==> {
            &&& j < i ==> at[i] * slot_count(data, start, j) < at[j] * slot_count(data, start, i)
            &&& j > i ==> at[i] * slot_count(data, start, j) <= at[j] * slot_count(data, start, i)
        }
}

/// The cursor to take, where one is pending.
pub open spec fn selected(data: Seq<BMSDatum>, start: int, at: Seq<usize>) -> int {
    choose|i: int| is_next(data, start, at, i)
}

/// The slots that the cursors have not reached yet, over all records of the group.
pub open spec fn slots_left(data: Seq<BMSDatum>, start: int, at: Seq<usize>) -> int
    decreases at.len(),
{
    if at.len() == 0 {
        0
    } else {
        slots_left(data, start, at.drop_last()) + slot_count(data, start, at.len() - 1)
            - at.last()
    }
}

/// What is known of the sample of object code `code`: `None` where its file
/// has not been decoded yet, `Some(None)` where the code has no file name or
/// its file could not be decoded, else the samples.
pub open spec fn source_state(
    table: Map<int, Seq<char>>,
    cache: SampleCache,
    code: int,
) -> Option<Option<Seq<i16>>> {
    if table.contains_key(code) {
        cache.state(table[code])
    } else {
        Some(None)
    }
}

/// The records stand in the order of their measures.
pub open spec fn records_ordered(data: Seq<BMSDatum>) -> bool {
    forall|i: int, j: int| 0 <= i <= j < data.len() ==> data[i].measure <= data[j].measure
}

/// Fractions compare transitively: `a/n < c/d` and `c/d <= e/f` give `a/n < e/f`.
pub proof fn lemma_fraction_order(a: int, n: int, c: int, d: int, e: int, f: int)
    requires
        0 <= a,
        0 < n,
        0 <= c,
        0 < d,
        0 <= e,
        0 < f,
        a * d < c * n,
        c * f <= e * d,
    ensures
        a * f < e * n,
{
    assert((a * d) * f < (c * n) * f) by (nonlinear_arith)
        requires
            a * d < c * n,
            0 < f,
    ;
    assert((c * f) * n <= (e * d) * n) by (nonlinear_arith)
        requires
            c * f <= e * d,
            0 < n,
    ;
    assert((a * d) * f == (a * f) * d) by (nonlinear_arith);
    assert((c * n) * f == (c * f) * n) by (nonlinear_arith);
    assert((e * d) * n == (e * n) * d) by (nonlinear_arith);
    assert(a * f < e * n) by (nonlinear_arith)
        requires
            (a * f) * d < (e * n) * d,
            0 < d,
    ;
}

/// The offset of a slot is the start of its measure and the whole
/// milliseconds of its fraction of the measure.
pub proof fn lemma_offset_parts(m: int, n: int, a: int, b: int)
    requires
        0 <= m,
        0 <= n,
        0 <= a,
        0 < b,
    ensures
        slot_offset(m, n, a, b) == m * n + (m * a) / b,
{
    assert(0 <= m * a) by (nonlinear_arith)
        requires
            0 <= m,
            0 <= a,
    ;
    lemma_hoist_over_denominator(m * a, m * n, b as nat);
    assert((m * n) * b == m * n * b);
}

/// A slot at a fraction no greater than another's, in one measure, has an
/// offset no greater.
pub proof fn lemma_offset_monotone(m: int, n: int, a: int, b: int, c: int, d: int)
    requires
        0 <= m,
        0 <= n,
        0 <= a,
        0 < b,
        0 <= c,
        0 < d,
        a * d <= c * b,
    ensures
        slot_offset(m, n, a, b) <= slot_offset(m, n, c, d),
{
    lemma_offset_parts(m, n, a, b);
    lemma_offset_parts(m, n, c, d);
    let x = m * a;
    let y = m * c;
    let q = x / b;
    assert(0 <= x && 0 <= y) by (nonlinear_arith)
        requires
            0 <= m,
            0 <= a,
            0 <= c,
            x == m * a,
            y == m * c,
    ;
    assert(q * b <= x && 0 <= q) by (nonlinear_arith)
        requires
            q == x / b,
            0 < b,
            0 <= x,
    ;
    assert(x * d <= y * b) by (nonlinear_arith)
        requires
            a * d <= c * b,
            0 <= m,
            x == m * a,
            y == m * c,
    ;
    assert((q * d) * b <= y * b) by (nonlinear_arith)
        requires
            q * b <= x,
            x * d <= y * b,
            0 < d,
    ;
    assert(q * d <= y) by (nonlinear_arith)
        requires
            (q * d) * b <= y * b,
            0 < b,
    ;
    assert(q <= y / d) by (nonlinear_arith)
        requires
            q * d <= y,
            0 < d,
    ;
}

/// Every slot of a measure comes before the start of the next measure.
pub proof fn lemma_offset_within_measure(m: int, n: int, a: int, b: int)
    requires
        0 < m,
        0 <= n,
        0 <= a < b,
    ensures
        m * n <= slot_offset(m, n, a, b) < m * (n + 1),
{
    lemma_offset_parts(m, n, a, b);
    let x = m * a;
    assert(0 <= x < m * b) by (nonlinear_arith)
        requires
            0 < m,
            0 <= a < b,
            x == m * a,
    ;
    assert(0 <= x / b < m) by (nonlinear_arith)
        requires
            0 <= x < m * b,
            0 < b,
    ;
    assert(m * (n + 1) == m * n + m) by (nonlinear_arith);
}

/// At most one cursor is the one to take.
pub proof fn lemma_next_is_unique(data: Seq<BMSDatum>, start: int, at: Seq<usize>, i: int, j: int)
    requires
        is_next(data, start, at, i),
        is_next(data, start, at, j),
    ensures
        i == j,
{
    assert(is_pending(data, start, at, i));
    assert(is_pending(data, start, at, j));
}

/// Moving one cursor on by a slot leaves one slot less.
pub proof fn lemma_slots_left_step(data: Seq<BMSDatum>, start: int, at: Seq<usize>, i: int)
    requires
        0 <= i < at.len(),
        at[i] < usize::MAX,
    ensures
        slots_left(data, start, at.update(i, (at[i] + 1) as usize)) == slots_left(data, start, at)
            - 1,
    decreases at.len(),
{
    let moved = at.update(i, (at[i] + 1) as usize);
    if i == at.len() - 1 {
        assert(moved.drop_last() =~= at.drop_last());
    } else {
        assert(moved.drop_last() =~= at.drop_last().update(i, (at[i] + 1) as usize));
        lemma_slots_left_step(data, start, at.drop_last(), i);
    }
}

/// Cursors within their records leave no negative number of slots.
pub proof fn lemma_slots_left_bound(data: Seq<BMSDatum>, start: int, at: Seq<usize>)
    requires
        forall|i: int| 0 <= i < at.len() ==> at[i] <= slot_count(data, start, i),
    ensures
        0 <= slots_left(data, start, at),
    decreases at.len(),
{
    if at.len() > 0 {
        lemma_slots_left_bound(data, start, at.drop_last());
    }
}

/// A sound to start: when, and what.
pub struct SoundEvent {
    /// Milliseconds from the start of the chart.
    pub offset: u32,
    /// The samples to play from that moment.
    pub buffer: SoundBuffer,
}

/// What is known of the sample of an object code.
pub enum Resolution {
    /// The code has no file name, or its file could not be decoded.
    Silent,
    /// A handle on the decoded samples.
    Ready(SoundBuffer),
    /// The file of this name has to be decoded first.
    Wanted(String),
}

/// What one move of the sequencer did.
pub enum Advance {
    /// No record is left: the chart is played out.
    Finished,
    /// The next measure group was taken up, every cursor at zero.
    Entered,
    /// The measure had no slot left and was put away.
    Left,
    /// A slot was passed that sounds nothing.
    Skipped,
    /// A slot was passed that sounds.
    Event(SoundEvent),
    /// The slot that comes next needs the file of this name decoded; nothing
    /// was passed.
    Load(String),
}

/// What the sequencer hands out.
pub enum Step {
    /// The next sound.
    Event(SoundEvent),
    /// The file of this name has to be decoded before the next sound is known.
    Load(String),
    /// No sound is left.
    Done,
}

/// Walks a chart slot by slot, in the order of the offsets.
pub struct BMSSoundProvider {
    /// The file name of each sample id.
    pub sounds: Vec<Option<String>>,
    /// The decoded samples by file name.
    pub sources: SampleCache,
    /// The records, and how many of them the measures so far have taken.
    pub measures: Measures,
    /// The first record of the measure at hand.
    pub current_measure: Option<usize>,
    /// For each record of the measure at hand, how many slots are passed.
    pub cursors: Vec<usize>,
    /// Milliseconds in a measure.
    pub measure_length: u32,
    /// The offset of the slot passed last.
    pub last_offset: u32,
}

/// The product of two sizes, which always fits.
fn cross(a: usize, b: usize) -> (r: u128)
    ensures
        r == a * b,
{
    assert(a * b <= 0xFFFF_FFFF_FFFF_FFFF * 0xFFFF_FFFF_FFFF_FFFF) by (nonlinear_arith)
        requires
            0 <= a <= 0xFFFF_FFFF_FFFF_FFFF,
            0 <= b <= 0xFFFF_FFFF_FFFF_FFFF,
    ;
    (a as u128) * (b as u128)
}

/// A cursor at zero for each of `count` records.
fn fresh_cursors(count: usize) -> (r: Vec<usize>)
    ensures
        r@ == Seq::new(count as nat, |i: int| 0usize),
{
    let mut r: Vec<usize> = Vec::new();
    let mut k: usize = 0;
    while k < count
        invariant
            k <= count,
            r@ == Seq::new(k as nat, |i: int| 0usize),
        decreases count - k,
    {
        r.push(0);
        k = k + 1;
        assert(r@ =~= Seq::new(k as nat, |i: int| 0usize));
    }
    r
}

/// The move from `pre` to `post` with outcome `r` is the one that the
/// sequencer makes in `pre`.
pub open spec fn is_advance(pre: BMSSoundProvider, post: BMSSoundProvider, r: Advance) -> bool {
    let data = pre.data();
    let m = pre.measure_length as int;
    &&& post.same_chart(pre)
    &&& match pre.current_measure {
        None => if pre.measures.position == data.len() {
            r is Finished && post == pre
        } else {
            &&& r is Entered
            &&& post.current_measure == Some(pre.measures.position)
            &&& is_run(data, pre.measures.position as int, post.measures.position as int)
            &&& post.cursors@ == Seq::new(
                (post.measures.position - pre.measures.position) as nat,
                |i: int| 0usize,
            )
            &&& post.last_offset == pre.last_offset
        },
        Some(start) => if forall|j: int| !is_pending(data, start as int, pre.cursors@, j) {
            &&& r is Left
            &&& post.current_measure is None
            &&& post.measures.position == pre.measures.position
            &&& post.last_offset == pre.last_offset
        } else {
            let i = selected(data, start as int, pre.cursors@);
            let a = pre.cursors@[i] as int;
            let code = data[start + i].message@[a] as int;
            let off = slot_offset(
                m,
                data[start as int].measure as int,
                a,
                slot_count(data, start as int, i),
            );
            let taken = {
                &&& is_next(data, start as int, pre.cursors@, i)
                &&& a < usize::MAX
                &&& post.current_measure == pre.current_measure
                &&& post.measures.position == pre.measures.position
                &&& post.cursors@ == pre.cursors@.update(i, (a + 1) as usize)
                &&& post.last_offset == off
            };
            if code == 0 {
                r is Skipped && taken
            } else {
                match source_state(pre.table(), pre.sources, code) {
                    Some(None) => r is Skipped && taken,
                    Some(Some(samples)) => {
                        &&& r is Event
                        &&& r->Event_0.offset == off
                        &&& r->Event_0.buffer@ == samples
                        &&& taken
                    },
                    None => {
                        &&& is_next(data, start as int, pre.cursors@, i)
                        &&& r is Load
                        &&& r->Load_0@ == pre.table()[code]
                        &&& post == pre
                    },
                }
            }
        },
    }
}

impl BMSSoundProvider {
    /// The records.
    pub open spec fn data(&self) -> Seq<BMSDatum> {
        self.measures.data@
    }

    /// The sample table.
    pub open spec fn table(&self) -> Map<int, Seq<char>> {
        table_view(self.sounds@)
    }

    /// No later event comes before this offset.
    pub open spec fn floor(&self) -> int {
        self.last_offset as int
    }

    /// Both walk the same chart with the same decoded samples.
    pub open spec fn same_chart(&self, other: BMSSoundProvider) -> bool {
        &&& self.sounds == other.sounds
        &&& self.sources == other.sources
        &&& self.measures.data == other.measures.data
        &&& self.measure_length == other.measure_length
    }

    /// The records are ordered, the cursors stand within the records of the
    /// measure at hand, and no slot that is still to come lies before the
    /// offset of the one passed last.
    pub open spec fn wf(&self) -> bool {
        let data = self.data();
        let m = self.measure_length as int;
        &&& self.measures.wf()
        &&& self.sounds@.len() == SAMPLE_IDS
        &&& 0 < m <= 240000
        &&& records_ordered(data)
        &&& forall|i: int| 0 <= i < data.len() ==> (#[trigger] data[i]).measure <= MAX_MEASURE
        &&& self.last_offset <= m * 1000
        &&& forall|k: int|
            self.measures.position <= k < data.len() ==> self.last_offset <= m * (
            #[trigger] data[k]).measure
        &&& match self.current_measure {
            None => true,
            Some(start) => {
                &&& is_run(data, start as int, self.measures.position as int)
                &&& self.cursors@.len() == self.measures.position - start
                &&& forall|i: int|
                    0 <= i < self.cursors@.len() ==> #[trigger] self.cursors@[i] <= slot_count(
                        data,
                        start as int,
                        i,
                    )
                &&& forall|i: int| #[trigger]
                    is_pending(data, start as int, self.cursors@, i) ==> self.last_offset
                        <= slot_offset(
                        m,
                        data[start as int].measure as int,
                        self.cursors@[i] as int,
                        slot_count(data, start as int, i),
                    )
            },
        }
    }

    /// The event `e` is that of the slot which the `i`-th cursor passed last.
    pub open spec fn emitted_at(&self, i: int, e: SoundEvent) -> bool {
        let data = self.data();
        let start = self.current_measure->0 as int;
        let a = self.cursors@[i] - 1;
        let code = data[start + i].message@[a] as int;
        &&& self.current_measure is Some
        &&& 0 <= i < self.cursors@.len()
        &&& 0 <= a < slot_count(data, start, i)
        &&& e.offset == slot_offset(
            self.measure_length as int,
            data[start].measure as int,
            a,
            slot_count(data, start, i),
        )
        &&& code != 0
        &&& source_state(self.table(), self.sources, code) == Some(Some(e.buffer@))
    }

    /// The slot that comes next sounds the file `name`, which is not decoded yet.
    pub open spec fn awaits(&self, name: Seq<char>) -> bool {
        let data = self.data();
        let start = self.current_measure->0 as int;
        let i = selected(data, start, self.cursors@);
        let code = data[start + i].message@[self.cursors@[i] as int] as int;
        &&& self.current_measure is Some
        &&& is_next(data, start, self.cursors@, i)
        &&& code != 0
        &&& self.table().contains_key(code)
        &&& self.table()[code] == name
        &&& self.sources.state(name) is None
    }

    /// A sequencer at the start of `bms`, with nothing decoded.
    pub fn new(bms: BMS) -> (r: BMSSoundProvider)
        requires
            bms.wf(),
            bms.ordered(),
            bms.bpm > 0,
        ensures
            r.wf(),
            r.data() == bms.data@,
            r.sounds == bms.sounds,
            r.measure_length == measure_length_ms(bms.bpm as int),
            r.current_measure is None,
            r.measures.position == 0,
            r.last_offset == 0,
            forall|name: Seq<char>| r.sources.state(name) is None,
    {
        let BMS { metadata: _, sounds, data, bpm } = bms;
        let measure_length: u32 = MEASURE_MS_AT_ONE_BPM / (bpm as u32);
        proof {
            assert(0 < 240000int / (bpm as int) <= 240000) by (nonlinear_arith)
                requires
                    0 < bpm <= 65535,
            ;
            assert(records_ordered(data@)) by {
                let views = datum_views(data@);
                assert forall|i: int, j: int| 0 <= i <= j < data@.len() implies data@[i].measure
                    <= data@[j].measure by {
                    assert(views[i].measure <= views[j].measure);
                }
            }
            assert forall|k: int| 0 <= k < data@.len() implies 0 <= measure_length * (
            #[trigger] data@[k]).measure by {
                assert(0 <= measure_length * data@[k].measure) by (nonlinear_arith)
                    requires
                        0 <= measure_length,
                        0 <= data@[k].measure,
                ;
            }
        }
        BMSSoundProvider {
            sounds,
            sources: SampleCache::new(),
            measures: Measures::new(data),
            current_measure: None,
            cursors: Vec::new(),
            measure_length,
            last_offset: 0,
        }
    }

    /// Records what decoding the file `name` gave. Only the sample cache
    /// changes, and a name that was recorded before keeps what it had.
    pub fn supply(&mut self, name: String, samples: Option<Vec<i16>>)
        requires
            old(self).wf(),
        ensures
            final(self).wf(),
            final(self).sounds == old(self).sounds,
            final(self).measures == old(self).measures,
            final(self).current_measure == old(self).current_measure,
            final(self).cursors == old(self).cursors,
            final(self).measure_length == old(self).measure_length,
            final(self).last_offset == old(self).last_offset,
            old(self).sources.state(name@) is Some ==> final(self).sources == old(self).sources,
            old(self).sources.state(name@) is None ==> final(self).sources.state(name@) == Some(
                match samples {
                    Some(v) => Some(v@),
                    None => None,
                },
            ),
            forall|other: Seq<char>|
                other != name@ ==> final(self).sources.state(other) == old(self).sources.state(
                    other,
                ),
            final(self).sources.keeps(old(self).sources),
            is_supply(*old(self), *final(self)),
    {
        self.sources.supply(name, samples);
    }

    /// What is known of the sample of object code `id`.
    pub fn get_source(&self, id: u32) -> (r: Resolution)
        requires
            self.wf(),
        ensures
            match r {
                Resolution::Silent => source_state(self.table(), self.sources, id as int) == Some(
                    None::<Seq<i16>>,
                ),
                Resolution::Ready(b) => source_state(self.table(), self.sources, id as int) == Some(
                    Some(b@),
                ),
                Resolution::Wanted(name) => {
                    &&& source_state(self.table(), self.sources, id as int) is None
                    &&& self.table().contains_key(id as int)
                    &&& self.table()[id as int] == name@
                },
            },
    {
        if id as usize >= self.sounds.len() {
            return Resolution::Silent;
        }
        match &self.sounds[id as usize] {
            None => Resolution::Silent,
            Some(name) => match self.sources.find(name) {
                None => Resolution::Wanted(name.clone()),
                Some(None) => Resolution::Silent,
                Some(Some(buffer)) => Resolution::Ready(buffer),
            },
        }
    }

    /// The cursor to take next in the measure at hand; `None` where no
    /// measure is at hand or none of its cursors has a slot left.
    pub fn next_event_index(&self) -> (r: Option<usize>)
        requires
            self.wf(),
        ensures
            match self.current_measure {
                None => r is None,
                Some(start) => match r {
                    Some(i) => is_next(self.data(), start as int, self.cursors@, i as int),
                    None => forall|j: int| !is_pending(self.data(), start as int, self.cursors@, j),
                },
            },
    {
        let start: usize = match self.current_measure {
            None => {
                return None;
            },
            Some(start) => start,
        };
        let ghost data = self.data();
        let ghost at = self.cursors@;
        let mut current_a: usize = 1;
        let mut current_n: usize = 1;
        let mut current_i: usize = 0;
        let mut found: bool = false;
        let mut k: usize = 0;
        while k < self.cursors.len()
            invariant
                self.wf(),
                self.current_measure == Some(start),
                data == self.data(),
                at == self.cursors@,
                k <= at.len(),
                !found ==> current_a == 1 && current_n == 1,
                !found ==> forall|j: int| 0 <= j < k ==> !is_pending(data, start as int, at, j),
                found ==> {
                    &&& current_i < k
                    &&& is_pending(data, start as int, at, current_i as int)
                    &&& current_a == at[current_i as int]
                    &&& current_n == slot_count(data, start as int, current_i as int)
                    &&& forall|j: int| #[trigger]
                        is_pending(data, start as int, at, j) && j < k ==> {
                            &&& j < current_i ==> current_a * slot_count(data, start as int, j)
                                < at[j] * current_n
                            &&& j > current_i ==> current_a * slot_count(data, start as int, j)
                                <= at[j] * current_n
                        }
                },
            decreases at.len() - k,
        {
            let next_a: usize = self.cursors[k];
            let next_n: usize = self.measures.data[start + k].message.len();
            assert(next_n == slot_count(data, start as int, k as int));
            if cross(next_a, current_n) < cross(current_a, next_n) {
                proof {
                    if found {
                        assert(next_a < next_n) by (nonlinear_arith)
                            requires
                                next_a * current_n < current_a * next_n,
                                current_a < current_n,
                                next_a <= next_n,
                                0 <= next_a,
                                0 <= current_a,
                        ;
                        assert forall|j: int| #[trigger]
                            is_pending(data, start as int, at, j) && j < k implies next_a
                            * slot_count(data, start as int, j) < at[j] * next_n by {
                            lemma_fraction_order(
                                next_a as int,
                                next_n as int,
                                current_a as int,
                                current_n as int,
                                at[j] as int,
                                slot_count(data, start as int, j),
                            );
                        }
                    } else {
                        assert(next_a * 1 == next_a && 1 * next_n == next_n);
                    }
                }
                current_a = next_a;
                current_n = next_n;
                current_i = k;
                found = true;
                if current_a == 0 {
                    proof {
                        assert forall|j: int| #[trigger]
                            is_pending(data, start as int, at, j) && j > k implies 0
                            * slot_count(data, start as int, j) <= at[j] * current_n by {
                            assert(0 <= at[j] * current_n) by (nonlinear_arith)
                                requires
                                    0 <= at[j],
                                    0 <= current_n,
                            ;
                        }
                        assert(is_next(data, start as int, at, k as int));
                    }
                    return Some(current_i);
                }
            } else {
                proof {
                    if !found {
                        assert(next_a * 1 == next_a && 1 * next_n == next_n);
                    }
                }
            }
            k = k + 1;
        }
        if found {
            Some(current_i)
        } else {
            None
        }
    }

    /// The offset of slot `a` of `b` in measure `n`.
    fn offset_of(&self, n: u16, a: usize, b: usize) -> (r: u32)
        requires
            0 < self.measure_length <= 240000,
            n <= MAX_MEASURE,
            a < b,
        ensures
            r == slot_offset(self.measure_length as int, n as int, a as int, b as int),
            r < self.measure_length * (n + 1),
    {
        let m: u32 = self.measure_length;
        proof {
            lemma_offset_parts(m as int, n as int, a as int, b as int);
            lemma_offset_within_measure(m as int, n as int, a as int, b as int);
            assert(m * (n + 1) <= 240000 * 1000 && 0 <= m * n) by (nonlinear_arith)
                requires
                    0 < m <= 240000,
                    0 <= n <= 999,
            ;
        }
        let whole: u32 = m * (n as u32);
        let part: u128 = cross(m as usize, a) / (b as u128);
        whole + (part as u32)
    }

    /// Makes one move: takes up the next measure, puts away a measure that
    /// has no slot left, or passes the slot that comes next. A slot that
    /// needs a file decoded is not passed: the file's name is handed out
    /// instead, and the move is to be made again once the file is supplied.
    pub fn advance(&mut self) -> (r: Advance)
        requires
            old(self).wf(),
        ensures
            final(self).wf(),
            is_advance(*old(self), *final(self), r),
            old(self).floor() <= final(self).floor(),
    {
        let ghost data = self.data();
        let ghost m = self.measure_length as int;
        let start: usize = match self.current_measure {
            None => {
                match self.measures.next() {
                    None => {
                        return Advance::Finished;
                    },
                    Some((start, end)) => {
                        self.current_measure = Some(start);
                        self.cursors = fresh_cursors(end - start);
                        proof {
                            let n = data[start as int].measure as int;
                            assert forall|i: int| #[trigger]
                                is_pending(data, start as int, self.cursors@, i) implies self.last_offset
                                <= slot_offset(m, n, 0, slot_count(data, start as int, i)) by {
                                lemma_offset_within_measure(
                                    m,
                                    n,
                                    0,
                                    slot_count(data, start as int, i),
                                );
                            }
                        }
                        return Advance::Entered;
                    },
                }
            },
            Some(start) => start,
        };
        let i: usize = match self.next_event_index() {
            None => {
                self.current_measure = None;
                return Advance::Left;
            },
            Some(i) => i,
        };
        let ghost at = self.cursors@;
        proof {
            assert(is_pending(data, start as int, at, i as int));
            lemma_next_is_unique(data, start as int, at, i as int, selected(data, start as int, at));
        }
        let n: u16 = self.measures.data[start].measure;
        let a: usize = self.cursors[i];
        let b: usize = self.measures.data[start + i].message.len();
        let point: u32 = self.measures.data[start + i].message[a];
        let offset: u32 = self.offset_of(n, a, b);
        let mut event: Option<SoundBuffer> = None;
        if point != 0 {
            match self.get_source(point) {
                Resolution::Wanted(name) => {
                    return Advance::Load(name);
                },
                Resolution::Ready(buffer) => {
                    event = Some(buffer);
                },
                Resolution::Silent => {},
            }
        }
        self.cursors.set(i, a + 1);
        self.last_offset = offset;
        proof {
            let moved = self.cursors@;
            assert(moved =~= at.update(i as int, (a + 1) as usize));
            let pos = self.measures.position as int;
            assert(offset <= m * 1000) by (nonlinear_arith)
                requires
                    offset < m * (n + 1),
                    n <= 999,
                    0 < m,
            ;
            assert forall|k: int| pos <= k < data.len() implies offset <= m * (
            #[trigger] data[k]).measure by {
                assert(data[start as int].measure <= data[pos].measure);
                assert(data[pos].measure <= data[k].measure);
                assert(m * (n + 1) <= m * data[k].measure) by (nonlinear_arith)
                    requires
                        n + 1 <= data[k].measure,
                        0 < m,
                ;
            }
            assert forall|j: int| #[trigger] is_pending(data, start as int, moved, j) implies offset
                <= slot_offset(m, n as int, moved[j] as int, slot_count(data, start as int, j)) by {
                if j == i {
                    assert(a * b <= (a + 1) * b) by (nonlinear_arith)
                        requires
                            0 <= a,
                            0 <= b,
                    ;
                    lemma_offset_monotone(m, n as int, a as int, b as int, a + 1, b as int);
                } else {
                    assert(is_pending(data, start as int, at, j));
                    lemma_offset_monotone(
                        m,
                        n as int,
                        a as int,
                        b as int,
                        at[j] as int,
                        slot_count(data, start as int, j),
                    );
                }
            }
        }
        match event {
            Some(buffer) => Advance::Event(SoundEvent { offset, buffer }),
            None => Advance::Skipped,
        }
    }

    /// The slots that the measure at hand has left.
    pub open spec fn slots(&self) -> int {
        match self.current_measure {
            Some(start) => slots_left(self.data(), start as int, self.cursors@),
            None => 0,
        }
    }

    /// How much of the chart is left: the records that no measure has taken
    /// yet, whether a measure is at hand, and the slots that it has left.
    pub open spec fn rank(&self) -> (int, int, int) {
        (
            self.data().len() - self.measures.position,
            if self.current_measure is Some {
                1int
            } else {
                0int
            },
            self.slots(),
        )
    }

    /// Hands out the next sound: makes the moves of `advance` one after
    /// another, past every slot that sounds nothing, up to the first slot
    /// that sounds, the first that needs a file decoded, or the end of the
    /// chart. No event comes before an earlier one: each is at or after
    /// `floor()`, and `floor()` then stands at its offset.
    pub fn next(&mut self) -> (r: Step)
        requires
            old(self).wf(),
        ensures
            final(self).wf(),
            final(self).same_chart(*old(self)),
            old(self).floor() <= final(self).floor(),
            match r {
                Step::Event(e) => {
                    &&& old(self).floor() <= e.offset
                    &&& e.offset == final(self).floor()
                    &&& exists|i: int| final(self).emitted_at(i, e)
                },
                Step::Load(name) => final(self).awaits(name@),
                Step::Done => {
                    &&& final(self).current_measure is None
                    &&& final(self).measures.position == final(self).data().len()
                },
            },
            r is Event ==> rank_below(final(self).rank(), old(self).rank()),
            is_pull(*old(self), *final(self), r),
    {
        let ghost mut trace: Seq<BMSSoundProvider> = seq![*self];
        let ghost mut outcomes: Seq<Option<Advance>> = Seq::empty();
        loop
            invariant
                self.wf(),
                self.same_chart(*old(self)),
                old(self).floor() <= self.floor(),
                self.rank() == old(self).rank() || rank_below(self.rank(), old(self).rank()),
                is_run_of(trace, outcomes),
                trace[0] == *old(self),
                trace.last() == *self,
                forall|k: int| 0 <= k < outcomes.len() ==> is_quiet(#[trigger] outcomes[k]),
            decreases
                    self.data().len() - self.measures.position,
                    (if self.current_measure is Some {
                        1int
                    } else {
                        0int
                    }),
                    self.slots(),
        {
            let ghost pre = *self;
            proof {
                if pre.current_measure is Some {
                    lemma_slots_left_bound(
                        pre.data(),
                        pre.current_measure->0 as int,
                        pre.cursors@,
                    );
                }
            }
            let moved = self.advance();
            proof {
                let longer = trace.push(*self);
                let more = outcomes.push(Some(moved));
                assert forall|k: int| 0 <= k < more.len() implies match #[trigger] more[k] {
                    Some(r) => is_advance(longer[k], longer[k + 1], r),
                    None => is_supply(longer[k], longer[k + 1]),
                } by {
                    if k < outcomes.len() {
                        assert(more[k] == outcomes[k]);
                        assert(longer[k] == trace[k]);
                        assert(longer[k + 1] == trace[k + 1]);
                    }
                }
                assert forall|k: int| 0 <= k < longer.len() implies (#[trigger] longer[k]).wf() by {
                    if k < trace.len() {
                        assert(longer[k] == trace[k]);
                    }
                }
                assert forall|k: int| 0 <= k < more.len() - 1 implies is_quiet(
                    #[trigger] more[k],
                ) by {
                    assert(more[k] == outcomes[k]);
                }
                trace = longer;
                outcomes = more;
            }
            match moved {
                Advance::Finished => {
                    proof {
                        assert(is_quiet_run(trace, outcomes, *old(self), *self, Step::Done));
                    }
                    return Step::Done;
                },
                Advance::Event(e) => {
                    proof {
                        assert(is_quiet_run(trace, outcomes, *old(self), *self, Step::Event(e)));
                        let start = pre.current_measure->0 as int;
                        let i = selected(pre.data(), start, pre.cursors@);
                        assert(is_pending(pre.data(), start, pre.cursors@, i));
                        assert(self.emitted_at(i, e));
                        lemma_slots_left_step(pre.data(), start, pre.cursors@, i);
                        lemma_slots_left_bound(self.data(), start, self.cursors@);
                    }
                    return Step::Event(e);
                },
                Advance::Load(name) => {
                    proof {
                        assert(is_quiet_run(trace, outcomes, *old(self), *self, Step::Load(name)));
                    }
                    return Step::Load(name);
                },
                Advance::Skipped => {
                    proof {
                        let start = pre.current_measure->0 as int;
                        let i = selected(pre.data(), start, pre.cursors@);
                        assert(is_pending(pre.data(), start, pre.cursors@, i));
                        lemma_slots_left_step(pre.data(), start, pre.cursors@, i);
                        lemma_slots_left_bound(self.data(), start, self.cursors@);
                    }
                },
                Advance::Entered => {
                    proof {
                        lemma_slots_left_bound(
                            self.data(),
                            self.current_measure->0 as int,
                            self.cursors@,
                        );
                    }
                },
                Advance::Left => {},
            }
        }
    }
}

/// The first rank is below the second: fewer records left, or as many and
/// no measure at hand where the other has one, or fewer slots left in it.
pub open spec fn rank_below(a: (int, int, int), b: (int, int, int)) -> bool {
    &&& 0 <= a.0 && 0 <= a.1 && 0 <= a.2
    &&& a.0 < b.0 || (a.0 == b.0 && (a.1 < b.1 || (a.1 == b.1 && a.2 < b.2)))
}

/// A move never lowers the floor, and an event that it hands out stands at
/// the floor that it leaves.
pub proof fn lemma_advance_floor(pre: BMSSoundProvider, post: BMSSoundProvider, r: Advance)
    requires
        pre.wf(),
        is_advance(pre, post, r),
    ensures
        pre.floor() <= post.floor(),
        r matches Advance::Event(e) ==> pre.floor() <= e.offset && e.offset == post.floor(),
{
    if pre.current_measure is Some {
        let start = pre.current_measure->0 as int;
        if !(forall|j: int| !is_pending(pre.data(), start, pre.cursors@, j)) {
            let i = selected(pre.data(), start, pre.cursors@);
            if !(post == pre) {
                assert(is_pending(pre.data(), start, pre.cursors@, i));
            }
        }
    }
}

/// Only the decoded samples differ between the two.
pub open spec fn is_supply(pre: BMSSoundProvider, post: BMSSoundProvider) -> bool {
    &&& post.sounds == pre.sounds
    &&& post.measures == pre.measures
    &&& post.current_measure == pre.current_measure
    &&& post.cursors == pre.cursors
    &&& post.measure_length == pre.measure_length
    &&& post.last_offset == pre.last_offset
}

/// `trace` is a run of the sequencer: each state follows from the one before
/// by the move whose outcome `outcomes` holds at that place, or, where it
/// holds `None`, by a supply of decoded samples.
pub open spec fn is_run_of(trace: Seq<BMSSoundProvider>, outcomes: Seq<Option<Advance>>) -> bool {
    &&& trace.len() == outcomes.len() + 1
    &&& forall|k: int| 0 <= k < trace.len() ==> (#[trigger] trace[k]).wf()
    &&& forall|k: int|
        0 <= k < outcomes.len() ==> match #[trigger] outcomes[k] {
            Some(r) => is_advance(trace[k], trace[k + 1], r),
            None => is_supply(trace[k], trace[k + 1]),
        }
}

/// The move passes over what sounds nothing: it hands nothing out and ends
/// nothing.
pub open spec fn is_quiet(outcome: Option<Advance>) -> bool {
    outcome matches Some(r) && (r is Entered || r is Left || r is Skipped)
}

/// What a move hands out when it is the last of a call.
pub open spec fn handed_out(outcome: Option<Advance>, r: Step) -> bool {
    match outcome {
        Some(Advance::Finished) => r is Done,
        Some(Advance::Event(e)) => r == Step::Event(e),
        Some(Advance::Load(name)) => r == Step::Load(name),
        _ => false,
    }
}

/// `trace` leads from `pre` to `post` by moves alone, all of them quiet but
/// the last, and the last hands out `r`.
pub open spec fn is_quiet_run(
    trace: Seq<BMSSoundProvider>,
    outcomes: Seq<Option<Advance>>,
    pre: BMSSoundProvider,
    post: BMSSoundProvider,
    r: Step,
) -> bool {
    &&& is_run_of(trace, outcomes)
    &&& outcomes.len() >= 1
    &&& trace[0] == pre
    &&& trace.last() == post
    &&& forall|k: int| 0 <= k < outcomes.len() - 1 ==> is_quiet(#[trigger] outcomes[k])
    &&& handed_out(outcomes.last(), r)
}

/// The sequencer goes from `pre` to `post` in one call of `next` that hands
/// out `step`.
pub open spec fn is_pull(pre: BMSSoundProvider, post: BMSSoundProvider, step: Step) -> bool {
    exists|trace: Seq<BMSSoundProvider>, outcomes: Seq<Option<Advance>>| #[trigger]
        is_quiet_run(trace, outcomes, pre, post, step)
}

/// Along a run the floor never falls.
pub proof fn lemma_floor_never_falls(
    trace: Seq<BMSSoundProvider>,
    outcomes: Seq<Option<Advance>>,
    i: int,
    j: int,
)
    requires
        is_run_of(trace, outcomes),
        0 <= i <= j < trace.len(),
    ensures
        trace[i].floor() <= trace[j].floor(),
    decreases j - i,
{
    if i < j {
        lemma_floor_never_falls(trace, outcomes, i, j - 1);
        assert(trace[j - 1].wf());
        match outcomes[j - 1] {
            Some(r) => {
                lemma_advance_floor(trace[j - 1], trace[j], r);
            },
            None => {},
        }
    }
}

/// The offsets of the events never fall: of two events of one run, over one
/// measure or many, the later has an offset at least that of the earlier.
pub proof fn lemma_offsets_never_fall(
    trace: Seq<BMSSoundProvider>,
    outcomes: Seq<Option<Advance>>,
    i: int,
    j: int,
)
    requires
        is_run_of(trace, outcomes),
        0 <= i < j < outcomes.len(),
        outcomes[i] matches Some(Advance::Event(_)),
        outcomes[j] matches Some(Advance::Event(_)),
    ensures
        outcomes[i]->0->Event_0.offset <= outcomes[j]->0->Event_0.offset,
{
    assert(trace[i].wf());
    assert(trace[j].wf());
    lemma_advance_floor(trace[i], trace[i + 1], outcomes[i]->0);
    lemma_advance_floor(trace[j], trace[j + 1], outcomes[j]->0);
    lemma_floor_never_falls(trace, outcomes, i + 1, j);
}

/// Of two pending cursors the one at the smaller fraction is taken before
/// the other, and of two at one fraction the one of the earlier record: the
/// other is not the one to take.
pub proof fn lemma_selection_rule(data: Seq<BMSDatum>, start: int, at: Seq<usize>, i: int, j: int)
    requires
        is_pending(data, start, at, i),
        is_pending(data, start, at, j),
        i != j,
        at[i] * slot_count(data, start, j) < at[j] * slot_count(data, start, i) || (at[i]
            * slot_count(data, start, j) == at[j] * slot_count(data, start, i) && i < j),
    ensures
        !is_next(data, start, at, j),
{
}

/// Where a measure has two records and both have slots left, the first is
/// taken exactly where its fraction is no greater than that of the second.
pub proof fn lemma_selection_of_two(data: Seq<BMSDatum>, start: int, at: Seq<usize>)
    requires
        at.len() == 2,
        is_pending(data, start, at, 0),
        is_pending(data, start, at, 1),
    ensures
        is_next(data, start, at, 0) <==> at[0] * slot_count(data, start, 1) <= at[1] * slot_count(
            data,
            start,
            0,
        ),
        is_next(data, start, at, 1) <==> at[1] * slot_count(data, start, 0) < at[0] * slot_count(
            data,
            start,
            1,
        ),
{
}

/// A record whose object codes are all zero sounds nothing: the move that
/// passes one of its slots hands out no event and asks for no file.
pub proof fn lemma_silent_record(pre: BMSSoundProvider, post: BMSSoundProvider, r: Advance)
    requires
        pre.wf(),
        is_advance(pre, post, r),
        pre.current_measure is Some,
        exists|j: int| is_pending(pre.data(), pre.current_measure->0 as int, pre.cursors@, j),
        ({
            let start = pre.current_measure->0 as int;
            let record = pre.data()[start + selected(pre.data(), start, pre.cursors@)];
            forall|a: int| 0 <= a < record.message@.len() ==> record.message@[a] == 0
        }),
    ensures
        r is Skipped,
{
    let start = pre.current_measure->0 as int;
    let i = selected(pre.data(), start, pre.cursors@);
    if r is Event || r is Load {
        assert(is_pending(pre.data(), start, pre.cursors@, i));
    }
}

/// A file is decoded once: where the sample of a code is known, a cache that
/// keeps what an earlier one held knows it alike, so the code's file is not
/// asked for again.
pub proof fn lemma_decoded_once(
    table: Map<int, Seq<char>>,
    earlier: SampleCache,
    later: SampleCache,
    code: int,
)
    requires
        later.keeps(earlier),
        source_state(table, earlier, code) is Some,
    ensures
        source_state(table, later, code) == source_state(table, earlier, code),
{
}

} // verus!
