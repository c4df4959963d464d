//! The handles a caller holds to its volumes, and which publication of each one is current.
//!
//! A volume handle is a positive `i64`, handed out in order and never reused. Every volume carries
//! a generation that starts at 1 and is bumped each time new occupancy is published for it; a job
//! records the stamp (handle and generation) it was submitted under, so a result about an older
//! publication reads as stale rather than being applied on top of the new one
//! ([`lemma_publish_outdates_results`]).
//!
//! What the caller keeps with each handle (the volume itself, timings, staged geometry) is its own
//! business: the registry is generic over that payload.
use crate::jobs::{JobModel, JobState, VolumeStamp};
use std::collections::HashMap;
use vstd::prelude::*;

verus! {

broadcast use vstd::std_specs::hash::group_hash_axioms;

/// One volume the caller holds a handle to.
pub struct Handle<E> {
    /// Which publication is current: 1 when created, bumped on every publication.
    pub generation: u64,
    /// What the caller keeps with the volume.
    pub payload: E,
}

/// The volumes a caller holds handles to.
pub struct Registry<E> {
    volumes: HashMap<i64, Handle<E>>,
    next_volume: i64,
}

/// The stamp a job about handle `vol` records, given the handles: the handle and its current
/// generation, or `None` for an unknown handle.
pub open spec fn stamp_in<E>(handles: Map<i64, Handle<E>>, vol: i64) -> Option<VolumeStamp> {
    if handles.contains_key(vol) {
        Some(VolumeStamp { id: vol as u64, generation: handles[vol].generation })
    } else {
        None
    }
}

impl<E> Registry<E> {
    /// The handles, with their generations and payloads.
    pub closed spec fn handles(&self) -> Map<i64, Handle<E>> {
        self.volumes@
    }

    /// The handle the next volume gets.
    pub closed spec fn next(&self) -> i64 {
        self.next_volume
    }

    /// Every handle was handed out before the next one, handles are positive, and generations
    /// start at 1.
    pub closed spec fn wf(&self) -> bool {
        &&& self.next_volume >= 1
        &&& forall|k: i64| #[trigger]
            self.volumes@.contains_key(k) ==> 1 <= k < self.next_volume
                && self.volumes@[k].generation >= 1
    }

    /// No volumes; the first gets handle 1.
    pub fn new() -> (r: Self)
        ensures
            r.wf(),
            r.handles() == Map::<i64, Handle<E>>::empty(),
            r.next() == 1,
    {
        Registry { volumes: HashMap::new(), next_volume: 1 }
    }

    /// The handle the next volume gets.
    pub fn next_handle(&self) -> (n: i64)
        ensures
            n == self.next(),
    {
        self.next_volume
    }

    /// Register a volume with `payload` at generation 1, under the next handle.
    pub fn create(&mut self, payload: E) -> (id: i64)
        requires
            old(self).wf(),
            old(self).next() < i64::MAX,
        ensures
            final(self).wf(),
            id == old(self).next(),
            !old(self).handles().contains_key(id),
            final(self).handles() == old(self).handles().insert(id, Handle { generation: 1, payload }),
            final(self).next() == id + 1,
    {
        let id = self.next_volume;
        self.next_volume = id + 1;
        self.volumes.insert(id, Handle { generation: 1, payload });
        id
    }

    /// Release handle `vol`, returning what was kept with it. Releasing twice is not an error.
    pub fn free(&mut self, vol: i64) -> (r: Option<E>)
        requires
            old(self).wf(),
        ensures
            final(self).wf(),
            final(self).handles() == old(self).handles().remove(vol),
            final(self).next() == old(self).next(),
            r is Some <==> old(self).handles().contains_key(vol),
            r matches Some(p) ==> p == old(self).handles()[vol].payload,
    {
        match self.volumes.remove(&vol) {
            Some(h) => Some(h.payload),
            None => None,
        }
    }

    /// What is kept with handle `vol`, or `None` for an unknown handle.
    pub fn get(&self, vol: i64) -> (r: Option<&E>)
        ensures
            r is Some <==> self.handles().contains_key(vol),
            r matches Some(p) ==> *p == self.handles()[vol].payload,
    {
        match self.volumes.get(&vol) {
            Some(h) => Some(&h.payload),
            None => None,
        }
    }

    /// Which publication of `vol` is current, or 0 for an unknown handle.
    pub fn generation(&self, vol: i64) -> (g: u64)
        ensures
            g == (if self.handles().contains_key(vol) {
                self.handles()[vol].generation
            } else {
                0
            }),
    {
        match self.volumes.get(&vol) {
            Some(h) => h.generation,
            None => 0,
        }
    }

    /// The stamp a job about `vol` is submitted under, or `None` for an unknown handle.
    pub fn stamp(&self, vol: i64) -> (s: Option<VolumeStamp>)
        ensures
            s == stamp_in(self.handles(), vol),
    {
        match self.volumes.get(&vol) {
            Some(h) => Some(VolumeStamp { id: vol as u64, generation: h.generation }),
            None => None,
        }
    }

    /// Replace what is kept with `vol` by `payload`, bumping its generation when `publish`: new
    /// occupancy is a new publication, a finished derive of the current one is not. Returns the
    /// payload it replaced, or `None` (dropping `payload`) for an unknown handle.
    pub fn put(&mut self, vol: i64, payload: E, publish: bool) -> (r: Option<E>)
        requires
            old(self).wf(),
            publish && old(self).handles().contains_key(vol) ==> old(self).handles()[vol].generation
                < u64::MAX,
        ensures
            final(self).wf(),
            final(self).next() == old(self).next(),
            r is Some <==> old(self).handles().contains_key(vol),
            r matches Some(p) ==> p == old(self).handles()[vol].payload,
            final(self).handles() == (if old(self).handles().contains_key(vol) {
                old(self).handles().insert(
                    vol,
                    Handle {
                        generation: (if publish {
                            old(self).handles()[vol].generation + 1
                        } else {
                            old(self).handles()[vol].generation as int
                        }) as u64,
                        payload,
                    },
                )
            } else {
                old(self).handles()
            }),
    {
        match self.volumes.remove(&vol) {
            None => None,
            Some(h) => {
                let generation = if publish {
                    h.generation + 1
                } else {
                    h.generation
                };
                self.volumes.insert(vol, Handle { generation, payload });
                proof {
                    assert(self.volumes@ =~= old(self).handles().insert(
                        vol,
                        Handle { generation, payload },
                    ));
                }
                Some(h.payload)
            },
        }
    }
}

/// Publishing outdates every result about the publication before it: a finished job submitted
/// under a volume's stamp reads `Stale` against the stamp after a publication, and `Ready` against
/// the stamp it was submitted under.
pub proof fn lemma_publish_outdates_results<E, W, O>(
    before: Map<i64, Handle<E>>,
    vol: i64,
    payload: E,
    jobs: JobModel<W, O>,
    job: u64,
)
    requires
        before.contains_key(vol),
        before[vol].generation < u64::MAX,
        jobs.is_ready(job),
        jobs.stamps.contains_key(job),
        stamp_in(before, vol) == Some(jobs.stamps[job]),
    ensures
        ({
            let after = before.insert(
                vol,
                Handle { generation: (before[vol].generation + 1) as u64, payload },
            );
            &&& jobs.poll(job, stamp_in(after, vol)) == JobState::Stale
            &&& jobs.poll(job, stamp_in(before, vol)) == JobState::Ready
        }),
{
}

} // verus!
