//! The mixer: one output sample for each call, the sum of the voices that play.

use vstd::prelude::*;
use crate::samples::Voice;
use crate::sequencer::{BMSSoundProvider, SoundEvent, Step, is_pull, rank_below, lemma_slots_left_bound};

verus! {

/// Output samples per second.
pub const SAMPLE_RATE: u32 = 44100;

/// Each voice enters the sum with a fifth of its amplitude.
pub const VOICE_SHARE: i32 = 5;

/// A sample at the gain of one voice: a fifth of it, rounded towards zero.
pub open spec fn attenuated(s: int) -> int {
    if s >= 0 {
        s / 5
    } else {
        -((-s) / 5)
    }
}

/// The output sample at which a sound at `offset` milliseconds starts.
pub open spec fn sample_index(offset: int, rate: int) -> int {
    offset * rate / 1000
}

/// What a voice adds to the output sample: its next sample at the gain of
/// one voice, or nothing where it has played out.
pub open spec fn voice_share(v: Voice) -> int {
    if v.is_live() {
        attenuated(v.buffer@[v.position as int] as int)
    } else {
        0
    }
}

/// The output sample of the voices: the sum of their shares.
pub open spec fn mixed(voices: Seq<Voice>) -> int
    decreases voices.len(),
{
    if voices.len() == 0 {
        0
    } else {
        mixed(voices.drop_last()) + voice_share(voices.last())
    }
}

/// The voices after one output sample: those that had a sample left, each
/// one sample further, in their order.
pub open spec fn played(voices: Seq<Voice>) -> Seq<Voice>
    decreases voices.len(),
{
    if voices.len() == 0 {
        Seq::empty()
    } else if voices.last().is_live() {
        played(voices.drop_last()).push(
            Voice { buffer: voices.last().buffer, position: (voices.last().position + 1) as usize },
        )
    } else {
        played(voices.drop_last())
    }
}

/// What the mixer hands out.
pub enum Tick {
    /// The next output sample.
    Sample(i128),
    /// The file of this name has to be decoded before the next sample is known.
    Load(String),
    /// No event is left and no voice plays.
    Done,
}

/// A sample at the gain of one voice.
pub fn attenuate(s: i16) -> (r: i32)
    ensures
        r == attenuated(s as int),
        -6554 <= r <= 6554,
{
    let w: i32 = s as i32;
    if w >= 0 {
        w / VOICE_SHARE
    } else {
        -((-w) / VOICE_SHARE)
    }
}

/// Sample by sample, the sum of the sounds of a chart.
pub struct Song {
    /// The sequencer that the events come from.
    pub sound_provider: BMSSoundProvider,
    /// The event taken from the sequencer whose time has not come yet.
    pub upcoming: Option<SoundEvent>,
    /// The sequencer has no event left.
    pub exhausted: bool,
    /// The voices that play.
    pub current_sources: Vec<Voice>,
    /// The number of samples handed out.
    pub current_offset: u64,
    /// Output samples per second.
    pub sample_rate: u32,
}

impl Song {
    /// No event that is still to come starts before the sample at hand.
    pub open spec fn wf(&self) -> bool {
        &&& self.sound_provider.wf()
        &&& match self.upcoming {
            Some(e) => {
                &&& self.current_offset <= sample_index(e.offset as int, self.sample_rate as int)
                &&& e.offset <= self.sound_provider.floor()
            },
            None => self.exhausted || self.current_offset <= sample_index(
                self.sound_provider.floor(),
                self.sample_rate as int,
            ),
        }
    }

    /// A mixer at the first sample, with no voice.
    pub fn new(sound_provider: BMSSoundProvider) -> (r: Song)
        requires
            sound_provider.wf(),
        ensures
            r.wf(),
            r.sound_provider == sound_provider,
            r.upcoming is None,
            !r.exhausted,
            r.current_sources@.len() == 0,
            r.current_offset == 0,
            r.sample_rate == SAMPLE_RATE,
    {
        proof {
            assert(0 <= sample_index(sound_provider.floor(), SAMPLE_RATE as int)) by (nonlinear_arith)
                requires
                    0 <= sound_provider.floor(),
            ;
        }
        Song {
            sound_provider,
            upcoming: None,
            exhausted: false,
            current_sources: Vec::new(),
            current_offset: 0,
            sample_rate: SAMPLE_RATE,
        }
    }

    /// The output sample at which `e` starts.
    pub fn start_of(&self, e: &SoundEvent) -> (r: u64)
        ensures
            r == sample_index(e.offset as int, self.sample_rate as int),
    {
        assert(e.offset * self.sample_rate <= 0xFFFF_FFFF * 0xFFFF_FFFF) by (nonlinear_arith)
            requires
                0 <= e.offset <= 0xFFFF_FFFF,
                0 <= self.sample_rate <= 0xFFFF_FFFF,
        ;
        (e.offset as u64) * (self.sample_rate as u64) / 1000
    }

    /// Mixes one output sample: every voice gives its next sample at a fifth
    /// of its amplitude, a voice that has none left goes, and the count of
    /// samples moves on by one.
    pub fn mix(&mut self) -> (r: i128)
        requires
            old(self).current_offset < u64::MAX,
        ensures
            r == mixed(old(self).current_sources@),
            final(self).current_sources@ == played(old(self).current_sources@),
            final(self).current_offset == old(self).current_offset + 1,
            final(self).sound_provider == old(self).sound_provider,
            final(self).upcoming == old(self).upcoming,
            final(self).exhausted == old(self).exhausted,
            final(self).sample_rate == old(self).sample_rate,
    {
        let ghost orig = self.current_sources@;
        let ghost mut k: int = 0;
        let count: usize = self.current_sources.len();
        let mut i: usize = 0;
        let mut sample_result: i128 = 0;
        proof {
            assert(orig.take(0) =~= Seq::<Voice>::empty());
            assert(played(orig.take(0)) + orig.skip(0) =~= orig);
        }
        while i < self.current_sources.len()
            invariant
                0 <= k <= orig.len(),
                orig.len() == count,
                i == played(orig.take(k)).len(),
                self.current_sources@ == played(orig.take(k)) + orig.skip(k),
                sample_result == mixed(orig.take(k)),
                -6554 * k <= sample_result <= 6554 * k,
                self.current_offset == old(self).current_offset,
                self.sound_provider == old(self).sound_provider,
                self.upcoming == old(self).upcoming,
                self.exhausted == old(self).exhausted,
                self.sample_rate == old(self).sample_rate,
            decreases orig.len() - k,
        {
            let ghost before = self.current_sources@;
            assert(before[i as int] == orig[k]);
            let current = self.current_sources[i].next();
            proof {
                assert(orig.take(k + 1).drop_last() =~= orig.take(k));
                assert(orig.take(k + 1).last() == orig[k]);
            }
            match current {
                Some(sample) => {
                    sample_result = sample_result + (attenuate(sample) as i128);
                    i = i + 1;
                    proof {
                        assert(self.current_sources@ =~= played(orig.take(k + 1)) + orig.skip(
                            k + 1,
                        ));
                    }
                },
                None => {
                    self.current_sources.remove(i);
                    proof {
                        assert(self.current_sources@ =~= played(orig.take(k + 1)) + orig.skip(
                            k + 1,
                        ));
                    }
                },
            }
            proof {
                k = k + 1;
            }
        }
        proof {
            assert(orig.take(k) =~= orig);
            assert(played(orig) + orig.skip(k) =~= played(orig));
        }
        self.current_offset = self.current_offset + 1;
        sample_result
    }

    /// Takes an event from the sequencer: where it starts at the sample at
    /// hand, a voice starts at the beginning of its samples; else the event
    /// waits. The answer is whether a voice started.
    pub fn take_event(&mut self, e: SoundEvent) -> (started: bool)
        requires
            old(self).upcoming is None,
        ensures
            started == (sample_index(e.offset as int, old(self).sample_rate as int) == old(
                self,
            ).current_offset),
            started ==> final(self).upcoming is None && final(self).current_sources@ == old(
                self,
            ).current_sources@.push(Voice { buffer: e.buffer, position: 0 }),
            !started ==> final(self).upcoming == Some(e) && final(self).current_sources == old(
                self,
            ).current_sources,
            final(self).sound_provider == old(self).sound_provider,
            final(self).exhausted == old(self).exhausted,
            final(self).current_offset == old(self).current_offset,
            final(self).sample_rate == old(self).sample_rate,
    {
        if self.start_of(&e) == self.current_offset {
            let voice = Voice { buffer: e.buffer, position: 0 };
            self.current_sources.push(voice);
            true
        } else {
            self.upcoming = Some(e);
            false
        }
    }

    /// Makes one move of the intake. An event that waits is taken up again,
    /// else the sequencer is asked for its next one; the event starts a voice
    /// where it is due at the sample at hand, and waits where it is not.
    pub fn feed(&mut self) -> (r: Feed)
        requires
            old(self).wf(),
        ensures
            final(self).wf(),
            is_feed(*old(self), *final(self), r),
            final(self).sound_provider.same_chart(old(self).sound_provider),
            r is Started ==> final(self).upcoming is None,
            r is Started && old(self).upcoming is Some ==> final(self).sound_provider == old(
                self,
            ).sound_provider,
            r is Started && old(self).upcoming is None ==> rank_below(
                final(self).sound_provider.rank(),
                old(self).sound_provider.rank(),
            ),
    {
        let ghost rate = self.sample_rate as int;
        let ghost floor = self.sound_provider.floor();
        let e: SoundEvent = match self.upcoming.take() {
            Some(e) => e,
            None => {
                if self.exhausted {
                    return Feed::Waits;
                }
                let step = self.sound_provider.next();
                match step {
                    Step::Event(e) => {
                        proof {
                            lemma_index_monotone(floor, e.offset as int, rate);
                        }
                        e
                    },
                    Step::Load(name) => {
                        proof {
                            lemma_index_monotone(floor, self.sound_provider.floor(), rate);
                        }
                        return Feed::Load(name);
                    },
                    Step::Done => {
                        self.exhausted = true;
                        return Feed::Waits;
                    },
                }
            },
        };
        proof {
            lemma_index_monotone(e.offset as int, self.sound_provider.floor(), rate);
        }
        if self.take_event(e) {
            Feed::Started
        } else {
            Feed::Waits
        }
    }

    /// Starts a voice for every event that is due at the sample at hand, in
    /// the order of the events: makes the moves of `feed` as long as they
    /// start voices. Where the sequencer needs a file decoded first, hands
    /// out its name: supply the file and call again.
    pub fn start_due(&mut self) -> (r: Option<String>)
        requires
            old(self).wf(),
        ensures
            final(self).wf(),
            final(self).sound_provider.same_chart(old(self).sound_provider),
            is_intake(*old(self), *final(self), r),
            final(self).current_offset == old(self).current_offset,
            final(self).sample_rate == old(self).sample_rate,
            starts_from(final(self).current_sources@, old(self).current_sources@),
            match r {
                Some(name) => {
                    &&& final(self).upcoming is None
                    &&& !final(self).exhausted
                    &&& final(self).sound_provider.awaits(name@)
                },
                None => match final(self).upcoming {
                    Some(e) => final(self).current_offset < sample_index(
                        e.offset as int,
                        final(self).sample_rate as int,
                    ),
                    None => final(self).exhausted,
                },
            },
    {
        let ghost first = self.current_sources@;
        let ghost mut trace: Seq<Song> = seq![*self];
        let ghost mut feeds: Seq<Feed> = Seq::empty();
        proof {
            assert(first.take(first.len() as int) =~= first);
        }
        loop
            invariant
                self.wf(),
                self.sound_provider.same_chart(old(self).sound_provider),
                first == old(self).current_sources@,
                self.current_offset == old(self).current_offset,
                self.sample_rate == old(self).sample_rate,
                starts_from(self.current_sources@, first),
                trace.len() == feeds.len() + 1,
                trace[0] == *old(self),
                trace.last() == *self,
                forall|k: int| 0 <= k < feeds.len() ==> is_feed(trace[k], trace[k + 1], #[trigger] feeds[k]),
                forall|k: int| 0 <= k < feeds.len() ==> (#[trigger] feeds[k]) is Started,
            decreases
                    self.sound_provider.rank().0,
                    self.sound_provider.rank().1,
                    self.sound_provider.rank().2,
                    (if self.upcoming is Some {
                        1int
                    } else {
                        0int
                    }),
        {
            let ghost voices = self.current_sources@;
            proof {
                if self.sound_provider.current_measure is Some {
                    lemma_slots_left_bound(
                        self.sound_provider.data(),
                        self.sound_provider.current_measure->0 as int,
                        self.sound_provider.cursors@,
                    );
                }
            }
            let fed = self.feed();
            proof {
                let longer = trace.push(*self);
                let more = feeds.push(fed);
                assert forall|k: int| 0 <= k < more.len() implies is_feed(
                    longer[k],
                    longer[k + 1],
                    #[trigger] more[k],
                ) by {
                    if k < feeds.len() {
                        assert(more[k] == feeds[k]);
                        assert(longer[k] == trace[k]);
                        assert(longer[k + 1] == trace[k + 1]);
                    }
                }
                assert forall|k: int| 0 <= k < more.len() - 1 implies (#[trigger] more[k]) is Started by {
                    assert(more[k] == feeds[k]);
                }
                trace = longer;
                feeds = more;
            }
            match fed {
                Feed::Started => {
                    proof {
                        assert(self.current_sources@.take(first.len() as int) =~= voices.take(
                            first.len() as int,
                        ));
                    }
                },
                Feed::Waits => {
                    proof {
                        assert(is_feeding(trace, feeds, *old(self), *self, None));
                    }
                    return None;
                },
                Feed::Load(name) => {
                    proof {
                        assert(is_feeding(trace, feeds, *old(self), *self, Some(name)));
                    }
                    return Some(name);
                },
            }
        }
    }

    /// The next output sample. First the voices start whose events are due;
    /// then, where no event is left and no voice plays, the song is over;
    /// else the voices are mixed. Where a file has to be decoded first, its
    /// name comes out: supply the file and call again.
    pub fn next(&mut self) -> (r: Tick)
        requires
            old(self).wf(),
            old(self).current_offset < u64::MAX,
        ensures
            final(self).wf(),
            final(self).sound_provider.same_chart(old(self).sound_provider),
            exists|mid: Song| #[trigger] is_tick(*old(self), mid, *final(self), r),
            r matches Tick::Load(name) ==> final(self).sound_provider.awaits(name@),
    {
        let loading = self.start_due();
        let ghost mid = *self;
        match loading {
            Some(name) => {
                proof {
                    assert(is_tick(*old(self), mid, *self, Tick::Load(name)));
                }
                return Tick::Load(name);
            },
            None => {},
        }
        if self.upcoming.is_none() && self.current_sources.len() == 0 {
            proof {
                assert(is_tick(*old(self), mid, *self, Tick::Done));
            }
            return Tick::Done;
        }
        let v: i128 = self.mix();
        proof {
            assert(is_tick(*old(self), mid, *self, Tick::Sample(v)));
        }
        Tick::Sample(v)
    }
}

/// What one move of the intake did.
pub enum Feed {
    /// An event was due and its voice started.
    Started,
    /// Nothing is due: the next event waits for its sample, or none is left.
    Waits,
    /// The sequencer needs the file of this name decoded.
    Load(String),
}

/// The mixer takes the event `e`: a voice starts at the beginning of its
/// samples where the event is due at the sample at hand, else the event waits.
pub open spec fn is_taken(pre: Song, post: Song, e: SoundEvent, r: Feed) -> bool {
    if sample_index(e.offset as int, pre.sample_rate as int) == pre.current_offset {
        &&& r is Started
        &&& post.upcoming is None
        &&& post.current_sources@ == pre.current_sources@.push(
            Voice { buffer: e.buffer, position: 0 },
        )
    } else {
        &&& r is Waits
        &&& post.upcoming == Some(e)
        &&& post.current_sources == pre.current_sources
    }
}

/// The move from `pre` to `post` with outcome `r` is the one that the intake
/// makes in `pre`.
pub open spec fn is_feed(pre: Song, post: Song, r: Feed) -> bool {
    &&& post.current_offset == pre.current_offset
    &&& post.sample_rate == pre.sample_rate
    &&& match pre.upcoming {
        Some(e) => {
            &&& post.sound_provider == pre.sound_provider
            &&& post.exhausted == pre.exhausted
            &&& is_taken(pre, post, e, r)
        },
        None => if pre.exhausted {
            r is Waits && post == pre
        } else {
            exists|step: Step| #[trigger]
                is_pull(pre.sound_provider, post.sound_provider, step) && match step {
                    Step::Event(e) => post.exhausted == pre.exhausted && is_taken(pre, post, e, r),
                    Step::Load(name) => {
                        &&& r == Feed::Load(name)
                        &&& post.upcoming is None
                        &&& !post.exhausted
                        &&& post.current_sources == pre.current_sources
                    },
                    Step::Done => {
                        &&& r is Waits
                        &&& post.upcoming is None
                        &&& post.exhausted
                        &&& post.current_sources == pre.current_sources
                    },
                }
        },
    }
}

/// `trace` leads from `pre` to `post` by moves of the intake, each of which
/// starts a voice but the last; the last asks for the file `r`, or for none.
pub open spec fn is_feeding(
    trace: Seq<Song>,
    feeds: Seq<Feed>,
    pre: Song,
    post: Song,
    r: Option<String>,
) -> bool {
    &&& trace.len() == feeds.len() + 1
    &&& feeds.len() >= 1
    &&& trace[0] == pre
    &&& trace.last() == post
    &&& forall|k: int| 0 <= k < feeds.len() ==> is_feed(trace[k], trace[k + 1], #[trigger] feeds[k])
    &&& forall|k: int| 0 <= k < feeds.len() - 1 ==> (#[trigger] feeds[k]) is Started
    &&& match r {
        Some(name) => feeds.last() == Feed::Load(name),
        None => feeds.last() is Waits,
    }
}

/// The intake leads from `pre` to `post` and asks for the file `r`, or for none.
pub open spec fn is_intake(pre: Song, post: Song, r: Option<String>) -> bool {
    exists|trace: Seq<Song>, feeds: Seq<Feed>| #[trigger] is_feeding(trace, feeds, pre, post, r)
}

/// One call for a sample leads from `pre` to `post` and hands out `r`: the
/// intake leads to `mid`; there the call ends where a file is asked for, or
/// where no event waits and no voice plays; else the voices of `mid` are mixed.
pub open spec fn is_tick(pre: Song, mid: Song, post: Song, r: Tick) -> bool {
    let over = mid.upcoming is None && mid.current_sources@.len() == 0;
    match r {
        Tick::Load(name) => is_intake(pre, mid, Some(name)) && post == mid,
        Tick::Done => is_intake(pre, mid, None) && over && post == mid,
        Tick::Sample(v) => {
            &&& is_intake(pre, mid, None)
            &&& !over
            &&& v == mixed(mid.current_sources@)
            &&& post.current_sources@ == played(mid.current_sources@)
            &&& post.current_offset == mid.current_offset + 1
            &&& post.sound_provider == mid.sound_provider
            &&& post.upcoming == mid.upcoming
            &&& post.exhausted == mid.exhausted
            &&& post.sample_rate == mid.sample_rate
        },
    }
}

/// `playing` holds the voices of `before` and behind them voices at their start.
pub open spec fn starts_from(playing: Seq<Voice>, before: Seq<Voice>) -> bool {
    &&& before.len() <= playing.len()
    &&& playing.take(before.len() as int) == before
    &&& forall|k: int| before.len() <= k < playing.len() ==> (#[trigger] playing[k]).position == 0
}

/// Voices play apart: what a group of voices adds to the sample, and where
/// its voices stand afterwards, is the same whatever else plays beside it,
/// voices on the same buffer among it.
pub proof fn lemma_voices_play_apart(a: Seq<Voice>, b: Seq<Voice>)
    ensures
        mixed(a + b) == mixed(a) + mixed(b),
        played(a + b) == played(a) + played(b),
    decreases b.len(),
{
    if b.len() == 0 {
        assert(a + b =~= a);
        assert(played(a) + played(b) =~= played(a));
    } else {
        assert((a + b).drop_last() =~= a + b.drop_last());
        assert((a + b).last() == b.last());
        lemma_voices_play_apart(a, b.drop_last());
        assert(played(a + b) =~= played(a) + played(b));
    }
}

/// A later offset starts at no earlier sample.
pub proof fn lemma_index_monotone(a: int, b: int, rate: int)
    requires
        0 <= a <= b,
        0 <= rate,
    ensures
        sample_index(a, rate) <= sample_index(b, rate),
{
    assert(a * rate <= b * rate) by (nonlinear_arith)
        requires
            0 <= a <= b,
            0 <= rate,
    ;
}

} // verus!
