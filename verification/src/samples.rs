//! Decoded samples: buffers that voices share, and the cache that holds one
//! buffer for each file name.

use vstd::prelude::*;
use std::sync::Arc;

verus! {

/// A handle on a decoded buffer: mono samples at the output rate. Handles on
/// one buffer share it; each voice made from a handle reads it from the start.
pub struct SoundBuffer {
    pub samples: Arc<Vec<i16>>,
}

impl View for SoundBuffer {
    type V = Seq<i16>;

    open spec fn view(&self) -> Seq<i16> {
        (*self.samples)@
    }
}

/// `Arc::clone`: a second pointer to the value that `buffer` points to. The
/// contract says that both point to equal samples.
#[verifier::external_body]
fn share(buffer: &Arc<Vec<i16>>) -> (r: Arc<Vec<i16>>)
    ensures
        r == *buffer,
{
    Arc::clone(buffer)
}

impl SoundBuffer {
    /// A buffer of its own for `samples`.
    pub fn new(samples: Vec<i16>) -> (r: SoundBuffer)
        ensures
            r@ == samples@,
    {
        SoundBuffer { samples: Arc::new(samples) }
    }

    /// Another handle on the same samples.
    pub fn duplicate(&self) -> (r: SoundBuffer)
        ensures
            r@ == self@,
    {
        SoundBuffer { samples: share(&self.samples) }
    }

    /// The number of samples.
    pub fn len(&self) -> (n: usize)
        ensures
            n == self@.len(),
    {
        self.samples.len()
    }

    /// The sample at `i`.
    pub fn sample(&self, i: usize) -> (s: i16)
        requires
            i < self@.len(),
        ensures
            s == self@[i as int],
    {
        self.samples[i]
    }
}

/// What the cache knows of one file name: the buffer decoded from it, or that
/// decoding failed.
pub struct CacheEntry {
    pub name: String,
    pub buffer: Option<SoundBuffer>,
}

/// The decoded buffers by file name. A name gets its entry when its file was
/// decoded, or could not be, and keeps it.
pub struct SampleCache {
    pub entries: Vec<CacheEntry>,
}

/// What a cache records for a name: nothing yet, a failure (`Some(None)`) or
/// samples.
pub open spec fn cache_state(entries: Seq<CacheEntry>, name: Seq<char>) -> Option<
    Option<Seq<i16>>,
>
    decreases entries.len(),
{
    if entries.len() == 0 {
        None
    } else if entries[0].name@ == name {
        Some(
            match entries[0].buffer {
                Some(b) => Some(b@),
                None => None,
            },
        )
    } else {
        cache_state(entries.skip(1), name)
    }
}

/// Adding an entry at the end changes only what was unknown.
pub proof fn lemma_cache_push(entries: Seq<CacheEntry>, e: CacheEntry, name: Seq<char>)
    ensures
        cache_state(entries.push(e), name) == if cache_state(entries, name) is Some {
            cache_state(entries, name)
        } else {
            cache_state(seq![e], name)
        },
    decreases entries.len(),
{
    if entries.len() == 0 {
        assert(entries.push(e) =~= seq![e]);
    } else {
        assert(entries.push(e).skip(1) =~= entries.skip(1).push(e));
        if entries[0].name@ != name {
            lemma_cache_push(entries.skip(1), e, name);
        }
    }
}

impl SampleCache {
    /// What the cache records for `name`.
    pub open spec fn state(&self, name: Seq<char>) -> Option<Option<Seq<i16>>> {
        cache_state(self.entries@, name)
    }

    /// Every name that `earlier` had recorded stands here with the same samples.
    pub open spec fn keeps(&self, earlier: SampleCache) -> bool {
        forall|name: Seq<char>|
            (#[trigger] earlier.state(name)) is Some ==> self.state(name) == earlier.state(name)
    }

    /// A cache that knows no name.
    pub fn new() -> (r: SampleCache)
        ensures
            forall|name: Seq<char>| r.state(name) is None,
    {
        SampleCache { entries: Vec::new() }
    }

    /// The entry of `name`: `None` where the cache has none, else a handle
    /// on its buffer, or `Some(None)` where decoding had failed.
    pub fn find(&self, name: &String) -> (r: Option<Option<SoundBuffer>>)
        ensures
            match r {
                None => self.state(name@) is None,
                Some(None) => self.state(name@) == Some(None::<Seq<i16>>),
                Some(Some(b)) => self.state(name@) == Some(Some(b@)),
            },
    {
        let mut i: usize = 0;
        assert(self.entries@.skip(0) =~= self.entries@);
        while i < self.entries.len()
            invariant
                i <= self.entries@.len(),
                self.state(name@) == cache_state(self.entries@.skip(i as int), name@),
            decreases self.entries@.len() - i,
        {
            assert(self.entries@.skip(i as int).skip(1) =~= self.entries@.skip(i + 1));
            if self.entries[i].name == *name {
                return Some(
                    match &self.entries[i].buffer {
                        Some(b) => Some(b.duplicate()),
                        None => None,
                    },
                );
            }
            i = i + 1;
        }
        None
    }

    /// Records what decoding the file `name` gave: its samples, or `None` for
    /// a failure. A name that has an entry keeps it, so each name is decoded
    /// once.
    pub fn supply(&mut self, name: String, samples: Option<Vec<i16>>)
        ensures
            old(self).state(name@) is Some ==> *final(self) == *old(self),
            old(self).state(name@) is None ==> final(self).state(name@) == Some(
                match samples {
                    Some(v) => Some(v@),
                    None => None,
                },
            ),
            forall|other: Seq<char>|
                other != name@ ==> final(self).state(other) == old(self).state(other),
            final(self).keeps(*old(self)),
    {
        if self.find(&name).is_some() {
            return ;
        }
        let buffer = match samples {
            Some(v) => Some(SoundBuffer::new(v)),
            None => None,
        };
        let entry = CacheEntry { name, buffer };
        proof {
            let one = seq![entry];
            assert(one.skip(1).len() == 0);
            assert forall|other: Seq<char>| other != name@ implies cache_state(
                self.entries@.push(entry),
                other,
            ) == cache_state(self.entries@, other) by {
                lemma_cache_push(self.entries@, entry, other);
                assert(cache_state(one.skip(1), other) is None);
                assert(cache_state(one, other) is None);
            }
            lemma_cache_push(self.entries@, entry, name@);
            assert(cache_state(one, name@) is Some);
        }
        self.entries.push(entry);
    }
}

/// One playing sample: a buffer and how far it has been read.
pub struct Voice {
    pub buffer: SoundBuffer,
    pub position: usize,
}

impl Voice {
    /// A voice at the start of `buffer`.
    pub fn new(buffer: SoundBuffer) -> (r: Voice)
        ensures
            r.buffer@ == buffer@,
            r.position == 0,
    {
        Voice { buffer, position: 0 }
    }

    /// The voice has samples left.
    pub open spec fn is_live(&self) -> bool {
        self.position < self.buffer@.len()
    }

    /// Reads the next sample; `None` at the end, and from then on.
    pub fn next(&mut self) -> (r: Option<i16>)
        ensures
            final(self).buffer == old(self).buffer,
            old(self).is_live() ==> r == Some(old(self).buffer@[old(self).position as int])
                && final(self).position == old(self).position + 1,
            !old(self).is_live() ==> r is None && final(self).position == old(self).position,
    {
        if self.position < self.buffer.len() {
            let s: i16 = self.buffer.sample(self.position);
            self.position = self.position + 1;
            Some(s)
        } else {
            None
        }
    }
}

} // verus!
