//! Tracks: clips keyed by their start position, and the modules that
//! receive the notes they play.

use crate::clip::{Clip, ClipNote, NoteAt};
use crate::tempo::Ticks;
use std::collections::BTreeMap;
use vstd::prelude::*;
use vstd::std_specs::btree::increasing_seq;
use vstd::std_specs::cmp::OrdSpec;

verus! {

broadcast use vstd::std_specs::btree::group_btree_axioms, vstd::laws_cmp::group_laws_cmp;

/// Identifier of a track: the identifier of its summing node.
pub type TrackId = usize;

/// Whether `k` is the start of the clip playing at `position` in `clips`:
/// the greatest start at or before it.
pub open spec fn is_active_key(clips: Map<Ticks, Clip>, position: Ticks, k: Ticks) -> bool {
    &&& clips.contains_key(k)
    &&& k <= position
    &&& forall|j: Ticks| clips.contains_key(j) && j <= position ==> j <= k
}

/// Whether `k` is the least start of a clip whose identifier is `clip_id`.
pub open spec fn is_first_with_id(clips: Map<Ticks, Clip>, clip_id: usize, k: Ticks) -> bool {
    &&& clips.contains_key(k)
    &&& clips[k].spec_id() == clip_id
    &&& forall|j: Ticks| clips.contains_key(j) && clips[j].spec_id() == clip_id ==> k <= j
}

/// A track.
#[derive(Debug)]
pub struct Track {
    id: TrackId,
    clips: BTreeMap<Ticks, Clip>,
    /// The modules that receive the notes of the track's clips.
    control: Vec<usize>,
}

impl Track {
    /// The clips, by start position.
    pub closed spec fn clip_map(&self) -> Map<Ticks, Clip> {
        self.clips@
    }

    pub closed spec fn spec_id(&self) -> TrackId {
        self.id
    }

    /// The modules that receive the notes of the track's clips.
    pub closed spec fn control_ids(&self) -> Seq<usize> {
        self.control@
    }

    pub fn id(&self) -> (r: TrackId)
        ensures
            r == self.spec_id(),
    {
        self.id
    }

    /// The modules that receive the notes of the track's clips.
    pub fn controls(&self) -> (r: &Vec<usize>)
        ensures
            r@ == self.control_ids(),
    {
        &self.control
    }

    /// Every clip is well formed.
    pub open spec fn wf(&self) -> bool {
        forall|k: Ticks| #[trigger] self.clip_map().contains_key(k) ==> self.clip_map()[k].wf()
    }

    /// The start of the clip playing at `position`, if any clip starts at or
    /// before it.
    pub open spec fn active_key(&self, position: Ticks) -> Option<Ticks> {
        if exists|k: Ticks| #[trigger] is_active_key(self.clip_map(), position, k) {
            Some(choose|k: Ticks| #[trigger] is_active_key(self.clip_map(), position, k))
        } else {
            None
        }
    }

    /// The notes that play as the position moves from `prev` to `cur`.
    pub open spec fn spec_notes_to_fire(&self, prev: Ticks, cur: Ticks) -> Seq<NoteAt> {
        match self.active_key(cur) {
            Some(k) => self.clip_map()[k].notes_in(prev, cur),
            None => Seq::empty(),
        }
    }

    /// A track with no clips and no control modules.
    pub fn new(id: TrackId) -> (r: Track)
        ensures
            r.wf(),
            r.spec_id() == id,
            r.clip_map() == Map::<Ticks, Clip>::empty(),
            r.control_ids() == Seq::<usize>::empty(),
    {
        Track { id, clips: BTreeMap::new(), control: Vec::new() }
    }

    /// Whether `new` is `old` with `clip` put at `position`, replacing the
    /// clip that started there, if any.
    pub open spec fn clip_put(old: Track, new: Track, position: Ticks, clip: Clip) -> bool {
        new.clip_map() == old.clip_map().insert(position, clip)
    }

    /// Puts `clip` at `position`, replacing a clip that starts there.
    pub fn add_clip(&mut self, position: Ticks, clip: Clip)
        requires
            old(self).wf(),
            clip.wf(),
        ensures
            final(self).wf(),
            final(self).spec_id() == old(self).spec_id(),
            final(self).control_ids() == old(self).control_ids(),
            Track::clip_put(*old(self), *final(self), position, clip),
    {
        self.clips.insert(position, clip);
        assert forall|k: Ticks| #[trigger] self.clip_map().contains_key(k) implies self.clip_map()[k].wf() by {
            if k != position {
                assert(old(self).clip_map().contains_key(k));
            }
        }
    }

    /// The clip playing at `position`: the one with the greatest start at
    /// or before it; `None` before the first clip.
    pub fn active_clip(&self, position: Ticks) -> (r: Option<&Clip>)
        requires
            self.wf(),
        ensures
            r is None <==> forall|k: Ticks| self.clip_map().contains_key(k) ==> k > position,
            r is None <==> self.active_key(position) is None,
            r matches Some(c) ==> self.active_key(position) matches Some(k) && is_active_key(
                self.clip_map(),
                position,
                k,
            ) && *c == self.clip_map()[k],
    {
        let mut best: Option<(Ticks, &Clip)> = None;
        for kv in it: self.clips.iter()
            invariant
                increasing_seq(it.seq().map_values(|kv: (&Ticks, &Clip)| *kv.0)),
                forall|i: int| 0 <= i < it.seq().len() ==> self.clips@.contains_key(*it.seq()[i].0) && self.clips@[*it.seq()[i].0] == *it.seq()[i].1,
                best matches Some((b, c)) ==> b <= position && self.clips@.contains_key(b) && self.clips@[b] == *c,
                best matches Some((b, c)) ==> forall|i: int| 0 <= i < it.index() && *it.seq()[i].0 <= position ==> *it.seq()[i].0 <= b,
                best is None ==> forall|i: int| 0 <= i < it.index() ==> *it.seq()[i].0 > position,
        {
            let (k, c) = kv;
            let ghost idx0 = it.index();
            let ghost best0 = best;
            proof {
                let ks = it.seq().map_values(|kv: (&Ticks, &Clip)| *kv.0);
                assert(kv == it.seq()[idx0 as int]);
                assert(vstd::laws_cmp::obeys_cmp::<i64>());
                assert forall|i: int| 0 <= i < idx0 implies ks[i] < ks[idx0 as int] by {
                    assert(ks[i].cmp_spec(&ks[idx0 as int]) is Less);
                }
            }
            if *k <= position {
                best = Some((*k, c));
            }
            proof {
                let ks = it.seq().map_values(|kv: (&Ticks, &Clip)| *kv.0);
                if let Some((b, _)) = best {
                    assert forall|i: int| 0 <= i < idx0 + 1 && *it.seq()[i].0 <= position implies *it.seq()[i].0 <= b by {
                        if i < idx0 {
                            assert(ks[i] < ks[idx0 as int]);
                            assert(*it.seq()[i].0 == ks[i]);
                            if let Some((b0, _)) = best0 {
                                assert(*it.seq()[i].0 <= b0);
                            }
                        } else {
                            assert(*it.seq()[i].0 == *k);
                        }
                    }
                }
            }
        }
        match best {
            None => {
                proof {
                    assert forall|k: Ticks| !is_active_key(self.clip_map(), position, k) by {}
                }
                None
            },
            Some((b, c)) => {
                proof {
                    assert(is_active_key(self.clip_map(), position, b));
                    let k = choose|k: Ticks| #[trigger] is_active_key(self.clip_map(), position, k);
                    assert(k <= b && b <= k);
                }
                Some(c)
            },
        }
    }

    /// The notes of the clip active at `cur` that play as the position moves
    /// from `prev` to `cur`: those starting at or after `prev` and before `cur`.
    pub fn notes_to_fire(&self, prev: Ticks, cur: Ticks) -> (r: Vec<NoteAt>)
        requires
            self.wf(),
        ensures
            r@ == self.spec_notes_to_fire(prev, cur),
    {
        match self.active_clip(cur) {
            Some(clip) => clip.get_notes_range(prev, cur),
            None => Vec::new(),
        }
    }

    /// Whether `new` is `old` with `note` added at `position` to the clip
    /// with the least start whose identifier is `clip_id`; unchanged when
    /// there is none.
    pub open spec fn note_put(old: Track, new: Track, clip_id: usize, note: ClipNote, position: Ticks) -> bool {
        &&& (forall|j: Ticks| old.clip_map().contains_key(j) ==> old.clip_map()[j].spec_id() != clip_id)
            ==> new.clip_map() == old.clip_map()
        &&& forall|k: Ticks|
            #[trigger] is_first_with_id(old.clip_map(), clip_id, k) ==> exists|c: Clip|
                Clip::note_added(old.clip_map()[k], c, note, position) && new.clip_map() == old.clip_map().insert(
                    k,
                    c,
                )
    }

    /// Finds the least start of a clip whose identifier is `clip_id`.
    fn find_clip(&self, clip_id: usize) -> (r: Option<Ticks>)
        ensures
            r matches Some(k) ==> is_first_with_id(self.clip_map(), clip_id, k),
            r is None ==> forall|j: Ticks| self.clip_map().contains_key(j) ==> self.clip_map()[j].spec_id() != clip_id,
    {
        let mut found: Option<Ticks> = None;
        for kv in it: self.clips.iter()
            invariant
                increasing_seq(it.seq().map_values(|kv: (&Ticks, &Clip)| *kv.0)),
                forall|i: int| 0 <= i < it.seq().len() ==> self.clips@.contains_key(*it.seq()[i].0) && self.clips@[*it.seq()[i].0] == *it.seq()[i].1,
                found matches Some(b) ==> self.clips@.contains_key(b) && self.clips@[b].spec_id() == clip_id,
                found matches Some(b) ==> forall|i: int| 0 <= i < it.seq().len() && it.seq()[i].1.spec_id() == clip_id ==> b <= *it.seq()[i].0,
                found is None ==> forall|i: int| 0 <= i < it.index() ==> it.seq()[i].1.spec_id() != clip_id,
        {
            let (k, c) = kv;
            let ghost idx0 = it.index();
            proof {
                let ks = it.seq().map_values(|kv: (&Ticks, &Clip)| *kv.0);
                assert(kv == it.seq()[idx0 as int]);
                assert(vstd::laws_cmp::obeys_cmp::<i64>());
                assert forall|i: int| idx0 < i < it.seq().len() implies ks[idx0 as int] < ks[i] by {
                    assert(ks[idx0 as int].cmp_spec(&ks[i]) is Less);
                }
            }
            if found.is_none() && c.id() == clip_id {
                found = Some(*k);
                proof {
                    let ks = it.seq().map_values(|kv: (&Ticks, &Clip)| *kv.0);
                    assert forall|i: int| 0 <= i < it.seq().len() && it.seq()[i].1.spec_id() == clip_id implies *k
                        <= *it.seq()[i].0 by {
                        if i > idx0 {
                            assert(ks[idx0 as int] < ks[i]);
                        }
                    }
                }
            }
        }
        found
    }

    /// Adds a note to the clip with the least start whose identifier is
    /// `clip_id`; does nothing when no clip has it.
    pub fn add_note(&mut self, clip_id: usize, note: ClipNote, position: Ticks)
        requires
            old(self).wf(),
        ensures
            final(self).wf(),
            final(self).spec_id() == old(self).spec_id(),
            final(self).control_ids() == old(self).control_ids(),
            Track::note_put(*old(self), *final(self), clip_id, note, position),
    {
        let k = match self.find_clip(clip_id) {
            None => return,
            Some(k) => k,
        };
        let removed = self.clips.remove(&k);
        match removed {
            None => {},
            Some(mut clip) => {
                proof {
                    assert(old(self).clip_map().contains_key(k));
                }
                clip.add_note(note, position);
                self.clips.insert(k, clip);
                proof {
                    assert(self.clip_map() =~= old(self).clip_map().insert(k, clip));
                    assert forall|j: Ticks| #[trigger] self.clip_map().contains_key(j) implies self.clip_map()[j].wf() by {
                        if j != k {
                            assert(old(self).clip_map().contains_key(j));
                        }
                    }
                    assert forall|k2: Ticks| #[trigger] is_first_with_id(old(self).clip_map(), clip_id, k2) implies k2 == k by {
                        assert(k2 <= k && k <= k2);
                    }
                }
            },
        }
    }

    pub fn set_control(&mut self, control: Vec<usize>)
        ensures
            final(self).spec_id() == old(self).spec_id(),
            final(self).clip_map() == old(self).clip_map(),
            final(self).control_ids() == control@,
    {
        self.control = control;
    }
}

} // verus!
