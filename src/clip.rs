//! Clips: notes keyed by their start position.

use crate::tempo::Ticks;
use std::collections::BTreeMap;
use vstd::prelude::*;
use vstd::std_specs::btree::increasing_seq;
use vstd::std_specs::cmp::OrdSpec;
use vstd::std_specs::iter::IteratorSpec;

verus! {

broadcast use vstd::std_specs::btree::group_btree_axioms, vstd::laws_cmp::group_laws_cmp;

/// Identifier of a clip.
pub type ClipId = usize;

/// Identifier of a note, unique inside its clip.
pub type ClipNoteId = usize;

/// A note of a clip.
#[derive(Clone, Copy, Debug, PartialEq, Eq, Structural)]
pub struct ClipNote {
    pub id: ClipNoteId,
    /// The pitch as a MIDI note number in `f32` form, held as its bit
    /// pattern: the engine carries it to the synthesis modules unchanged.
    pub midi: u32,
    /// Duration.
    pub dur: Ticks,
    /// Velocity.
    pub vel: u8,
}

impl ClipNote {
    pub fn new(id: ClipNoteId, midi: u32, dur: Ticks, vel: u8) -> (r: ClipNote)
        ensures
            r == (ClipNote { id, midi, dur, vel }),
    {
        ClipNote { id, midi, dur, vel }
    }
}

/// A note with its start position.
pub type NoteAt = (Ticks, ClipNote);

/// The notes of `m` at position `p`, each with its position.
pub open spec fn notes_at(m: Map<Ticks, Seq<ClipNote>>, p: int) -> Seq<NoteAt> {
    if i64::MIN <= p <= i64::MAX && m.contains_key(p as i64) {
        m[p as i64].map_values(|n: ClipNote| (p as i64, n))
    } else {
        Seq::empty()
    }
}

/// The notes of `m` that start at or after `lo` and before `hi`, in order of
/// position, and those at one position in their order in `m`.
pub open spec fn notes_between(m: Map<Ticks, Seq<ClipNote>>, lo: int, hi: int) -> Seq<NoteAt>
    decreases hi - lo,
{
    if lo >= hi {
        Seq::empty()
    } else {
        notes_at(m, lo) + notes_between(m, lo + 1, hi)
    }
}

/// The window from `lo` to `hi` splits at any point between them.
proof fn lemma_split(m: Map<Ticks, Seq<ClipNote>>, lo: int, mid: int, hi: int)
    requires
        lo <= mid <= hi,
    ensures
        notes_between(m, lo, hi) == notes_between(m, lo, mid) + notes_between(m, mid, hi),
    decreases mid - lo,
{
    if lo < mid {
        lemma_split(m, lo + 1, mid, hi);
        assert(notes_at(m, lo) + (notes_between(m, lo + 1, mid) + notes_between(m, mid, hi)) =~= (notes_at(m, lo)
            + notes_between(m, lo + 1, mid)) + notes_between(m, mid, hi));
    } else {
        assert(notes_between(m, lo, mid) =~= Seq::<NoteAt>::empty());
        assert(Seq::<NoteAt>::empty() + notes_between(m, mid, hi) =~= notes_between(m, mid, hi));
    }
}

/// A window that holds no position of `m` holds no note.
proof fn lemma_empty(m: Map<Ticks, Seq<ClipNote>>, lo: int, hi: int)
    requires
        forall|k: Ticks| m.contains_key(k) ==> !(lo <= k < hi),
    ensures
        notes_between(m, lo, hi) == Seq::<NoteAt>::empty(),
    decreases hi - lo,
{
    if lo < hi {
        lemma_empty(m, lo + 1, hi);
        assert(notes_at(m, lo) =~= Seq::<NoteAt>::empty());
        assert(notes_between(m, lo, hi) =~= Seq::<NoteAt>::empty());
    }
}

/// The window of the single position `k`.
proof fn lemma_single(m: Map<Ticks, Seq<ClipNote>>, k: int)
    ensures
        notes_between(m, k, k + 1) == notes_at(m, k),
{
    assert(notes_between(m, k + 1, k + 1) =~= Seq::<NoteAt>::empty());
    assert(notes_at(m, k) + Seq::<NoteAt>::empty() =~= notes_at(m, k));
}

/// `x` limited to the range from `lo` to `hi` (to `lo` when that is empty).
pub open spec fn clamp(x: int, lo: int, hi: int) -> int {
    if x < lo {
        lo
    } else if x > hi {
        if hi < lo {
            lo
        } else {
            hi
        }
    } else {
        x
    }
}

/// A clip: for each start position, the notes that start there in the
/// order they were added, and a duration; notes that start at or after the
/// duration never play.
#[derive(Debug)]
pub struct Clip {
    id: ClipId,
    notes: BTreeMap<Ticks, Vec<ClipNote>>,
    dur: Ticks,
    offset: Ticks,
}

impl Clip {
    /// The notes, by start position.
    pub closed spec fn notes_map(&self) -> Map<Ticks, Seq<ClipNote>> {
        self.notes@.map_values(|v: Vec<ClipNote>| v@)
    }

    pub closed spec fn spec_id(&self) -> ClipId {
        self.id
    }

    pub closed spec fn duration(&self) -> Ticks {
        self.dur
    }

    pub closed spec fn spec_offset(&self) -> Ticks {
        self.offset
    }

    /// Every position held has at least one note.
    pub open spec fn wf(&self) -> bool {
        forall|k: Ticks| #[trigger] self.notes_map().contains_key(k) ==> self.notes_map()[k].len() > 0
    }

    /// The notes at `position`, in the order added.
    pub open spec fn notes_at_pos(&self, position: Ticks) -> Seq<ClipNote> {
        if self.notes_map().contains_key(position) {
            self.notes_map()[position]
        } else {
            Seq::empty()
        }
    }

    /// Whether `new` is `old` with `note` added at `position`, after the
    /// notes already there.
    pub open spec fn note_added(old: Clip, new: Clip, note: ClipNote, position: Ticks) -> bool {
        &&& new.spec_id() == old.spec_id()
        &&& new.duration() == old.duration()
        &&& new.spec_offset() == old.spec_offset()
        &&& new.notes_map() == old.notes_map().insert(position, old.notes_at_pos(position).push(note))
    }

    /// The notes that play in the window from `start` up to `end`, with
    /// their positions, in order of position.
    pub open spec fn notes_in(&self, start: Ticks, end: Ticks) -> Seq<NoteAt> {
        notes_between(self.notes_map(), start as int, if end < self.duration() { end as int } else { self.duration() as int })
    }

    /// An empty clip of duration `dur`.
    pub fn new(id: ClipId, dur: Ticks) -> (r: Clip)
        ensures
            r.wf(),
            r.notes_map() == Map::<Ticks, Seq<ClipNote>>::empty(),
            r.spec_id() == id,
            r.duration() == dur,
            r.spec_offset() == 0,
    {
        let r = Clip { id, notes: BTreeMap::new(), dur, offset: 0 };
        assert(r.notes_map() =~= Map::<Ticks, Seq<ClipNote>>::empty());
        r
    }

    pub fn id(&self) -> (r: ClipId)
        ensures
            r == self.spec_id(),
    {
        self.id
    }

    /// Adds a note at `position`, after the notes already there.
    pub fn add_note(&mut self, note: ClipNote, position: Ticks)
        requires
            old(self).wf(),
        ensures
            final(self).wf(),
            Clip::note_added(*old(self), *final(self), note, position),
    {
        let existing = self.notes.remove(&position);
        let mut v: Vec<ClipNote> = match existing {
            Some(v) => v,
            None => Vec::new(),
        };
        let ghost before = v@;
        v.push(note);
        self.notes.insert(position, v);
        proof {
            assert(before == old(self).notes_at_pos(position));
            assert(self.notes_map() =~= old(self).notes_map().insert(position, before.push(note)));
            assert forall|k: Ticks| #[trigger] self.notes_map().contains_key(k) implies self.notes_map()[k].len() > 0 by {
                if k != position {
                    assert(old(self).notes_map().contains_key(k));
                }
            }
        }
    }

    /// Removes the first note at `position` whose identifier is `note.id`;
    /// does nothing when there is none.
    pub fn remove_note(&mut self, note: ClipNote, position: Ticks)
        requires
            old(self).wf(),
        ensures
            final(self).wf(),
            final(self).spec_id() == old(self).spec_id(),
            final(self).duration() == old(self).duration(),
            final(self).spec_offset() == old(self).spec_offset(),
            (forall|i: int|
                0 <= i < old(self).notes_at_pos(position).len() ==> (#[trigger] old(self).notes_at_pos(position)[i]).id
                    != note.id) ==> final(self).notes_map() == old(self).notes_map(),
            forall|k: int|
                0 <= k < old(self).notes_at_pos(position).len() && old(self).notes_at_pos(position)[k].id == note.id
                    && (forall|i: int| 0 <= i < k ==> (#[trigger] old(self).notes_at_pos(position)[i]).id != note.id)
                    ==> #[trigger] final(self).notes_at_pos(position) == old(self).notes_at_pos(position).remove(k)
                    && forall|p: Ticks| p != position ==> final(self).notes_at_pos(p) == old(self).notes_at_pos(p),
    {
        let existing = self.notes.remove(&position);
        let mut v: Vec<ClipNote> = match existing {
            None => {
                proof {
                    assert(self.notes_map() =~= old(self).notes_map());
                }
                return;
            },
            Some(v) => v,
        };
        let ghost s = v@;
        let ghost mid = self.notes_map();
        proof {
            assert(s == old(self).notes_at_pos(position));
            assert(mid =~= old(self).notes_map().remove(position));
        }
        let mut k: usize = 0;
        while k < v.len() && v[k].id != note.id
            invariant
                v@ == s,
                k <= s.len(),
                forall|i: int| 0 <= i < k ==> s[i].id != note.id,
            decreases s.len() - k,
        {
            k += 1;
        }
        if k < v.len() {
            v.remove(k);
            proof {
                assert forall|k2: int|
                    0 <= k2 < s.len() && s[k2].id == note.id && (forall|i: int| 0 <= i < k2 ==> s[i].id != note.id)
                    implies k2 == k by {
                    if k2 < k {
                        assert(s[k2].id != note.id);
                    } else if k2 > k {
                        assert(s[k as int].id != note.id);
                    }
                }
            }
        }
        let ghost kept = v@;
        if v.len() > 0 {
            self.notes.insert(position, v);
            proof {
                assert(self.notes_map() =~= old(self).notes_map().insert(position, kept));
            }
        } else {
            proof {
                assert(self.notes_map() =~= old(self).notes_map().remove(position));
            }
        }
        proof {
            assert forall|q: Ticks| #[trigger] self.notes_map().contains_key(q) implies self.notes_map()[q].len() > 0 by {
                if q != position {
                    assert(old(self).notes_map().contains_key(q));
                }
            }
            if k == s.len() {
                assert(kept == s);
                assert(self.notes_map() =~= old(self).notes_map());
            }
            assert forall|p: Ticks| p != position implies self.notes_at_pos(p) == old(self).notes_at_pos(p) by {
                if old(self).notes_map().contains_key(p) {
                    assert(self.notes_map().contains_key(p));
                }
            }
        }
    }

    /// Copies the notes held at one position, with that position.
    fn append_at(out: &mut Vec<NoteAt>, k: Ticks, v: &Vec<ClipNote>)
        ensures
            final(out)@ == old(out)@ + v@.map_values(|n: ClipNote| (k, n)),
    {
        let ghost base = out@;
        let mut j: usize = 0;
        while j < v.len()
            invariant
                j <= v@.len(),
                out@ == base + v@.take(j as int).map_values(|n: ClipNote| (k, n)),
            decreases v@.len() - j,
        {
            out.push((k, v[j]));
            proof {
                assert(v@.take(j + 1) =~= v@.take(j as int).push(v@[j as int]));
                assert(out@ =~= base + v@.take(j + 1).map_values(|n: ClipNote| (k, n)));
            }
            j += 1;
        }
        assert(v@.take(v@.len() as int) =~= v@);
    }

    /// The notes that start at `position`, in the order added.
    pub fn get_notes(&self, position: Ticks) -> (r: Vec<ClipNote>)
        ensures
            r@ == self.notes_at_pos(position),
    {
        let mut out: Vec<ClipNote> = Vec::new();
        match self.notes.get(&position) {
            None => {},
            Some(v) => {
                let mut j: usize = 0;
                while j < v.len()
                    invariant
                        j <= v@.len(),
                        out@ == v@.take(j as int),
                    decreases v@.len() - j,
                {
                    out.push(v[j]);
                    proof {
                        assert(v@.take(j + 1) =~= v@.take(j as int).push(v@[j as int]));
                    }
                    j += 1;
                }
                assert(v@.take(v@.len() as int) =~= v@);
            },
        }
        out
    }

    /// The notes that start at or after `start` and before `end`, and
    /// before the clip's duration, with their positions, in order of
    /// position (notes at one position in the order added).
    pub fn get_notes_range(&self, start: Ticks, end: Ticks) -> (r: Vec<NoteAt>)
        ensures
            r@ == self.notes_in(start, end),
    {
        let hi: Ticks = if end < self.dur { end } else { self.dur };
        let ghost m = self.notes_map();
        let mut out: Vec<NoteAt> = Vec::new();
        let iter = self.notes.iter();
        let ghost s0 = iter.remaining();
        proof {
            let ks0 = s0.map_values(|kv: (&Ticks, &Vec<ClipNote>)| *kv.0);
            assert(vstd::laws_cmp::obeys_cmp::<i64>());
            let first: int = if s0.len() > 0 { *s0[0].0 as int } else { hi as int };
            assert forall|q: Ticks| m.contains_key(q) implies !(start <= q && q < first) by {
                assert(self.notes@.contains_key(q));
                assert(s0.contains((&q, &self.notes@[q])));
                let t = choose|t: int| 0 <= t < s0.len() && s0[t] == (&q, &self.notes@[q]);
                if t > 0 {
                    assert(ks0[0].cmp_spec(&ks0[t]) is Less);
                }
            }
            lemma_empty(m, start as int, clamp(first, start as int, hi as int));
            assert(out@ =~= notes_between(m, start as int, clamp(first, start as int, hi as int)));
        }
        for kv in it: iter
            invariant
                it.seq() == s0,
                m == self.notes_map(),
                increasing_seq(it.seq().map_values(|kv: (&Ticks, &Vec<ClipNote>)| *kv.0)),
                forall|i: int|
                    0 <= i < it.seq().len() ==> self.notes@.contains_key(*it.seq()[i].0) && self.notes@[*it.seq()[i].0]
                        == *it.seq()[i].1,
                forall|q: Ticks| self.notes@.contains_key(q) ==> exists|i: int| 0 <= i < it.seq().len() && *it.seq()[i].0 == q,
                out@ == notes_between(
                    m,
                    start as int,
                    clamp(
                        if it.index() < it.seq().len() { *it.seq()[it.index() as int].0 as int } else { hi as int },
                        start as int,
                        hi as int,
                    ),
                ),
        {
            let (k, v) = kv;
            let ghost idx = it.index();
            let ghost seq = it.seq();
            let ghost ks = seq.map_values(|kv: (&Ticks, &Vec<ClipNote>)| *kv.0);
            let ghost nb: int = if idx + 1 < seq.len() { *seq[idx + 1].0 as int } else { hi as int };
            proof {
                assert(kv == seq[idx as int]);
                assert(vstd::laws_cmp::obeys_cmp::<i64>());
                assert forall|i: int, j: int| 0 <= i < j < seq.len() implies ks[i] < ks[j] by {
                    assert(ks[i].cmp_spec(&ks[j]) is Less);
                }
                // No position lies strictly between this one and the next.
                assert forall|q: Ticks| m.contains_key(q) implies !(*k < q && q < nb) by {
                    assert(self.notes@.contains_key(q));
                    let t = choose|t: int| 0 <= t < seq.len() && *seq[t].0 == q;
                    if *k < q && q < nb {
                        assert(ks[t] == q && ks[idx as int] == *k);
                        if t <= idx {
                            if t < idx {
                                assert(ks[t] < ks[idx as int]);
                            }
                        } else if t == idx + 1 {
                        } else {
                            assert(ks[idx + 1] < ks[t]);
                        }
                    }
                }
                assert(m.contains_key(*k) && m[*k] == v@);
                assert(ks[idx as int] == *k);
                if idx + 1 < seq.len() {
                    assert(ks[idx as int] < ks[idx + 1]);
                    assert(ks[idx + 1] == *seq[idx + 1].0);
                }
                assert(nb > *k || nb == hi);
            }
            if start <= *k && *k < hi {
                Clip::append_at(&mut out, *k, v);
                proof {
                    let lo = start as int;
                    let b = clamp(nb, lo, hi as int);
                    lemma_split(m, lo, *k as int, *k as int + 1);
                    lemma_single(m, *k as int);
                    assert(notes_at(m, *k as int) =~= v@.map_values(|n: ClipNote| (*k, n)));
                    lemma_split(m, lo, *k as int + 1, b);
                    lemma_empty(m, *k as int + 1, b);
                    assert(notes_between(m, lo, *k as int + 1) + Seq::<NoteAt>::empty() =~= notes_between(m, lo, *k as int + 1));
                }
            } else {
                proof {
                    let lo = start as int;
                    let b = clamp(nb, lo, hi as int);
                    if *k < start {
                        lemma_empty(m, lo, b);
                        assert(notes_between(m, lo, lo) =~= Seq::<NoteAt>::empty());
                    }
                }
            }
        }
        proof {
            assert(clamp(hi as int, start as int, hi as int) == hi || hi < start);
            if hi < start {
                assert(notes_between(m, start as int, hi as int) =~= Seq::<NoteAt>::empty());
                assert(notes_between(m, start as int, start as int) =~= Seq::<NoteAt>::empty());
            }
        }
        out
    }

    pub fn set_duration(&mut self, dur: Ticks)
        ensures
            final(self).notes_map() == old(self).notes_map(),
            final(self).spec_id() == old(self).spec_id(),
            final(self).duration() == dur,
            final(self).spec_offset() == old(self).spec_offset(),
    {
        self.dur = dur;
    }

    pub fn set_offset(&mut self, offset: Ticks)
        ensures
            final(self).notes_map() == old(self).notes_map(),
            final(self).spec_id() == old(self).spec_id(),
            final(self).duration() == old(self).duration(),
            final(self).spec_offset() == offset,
    {
        self.offset = offset;
    }

    pub fn set_all(&mut self, dur: Ticks, offset: Ticks)
        ensures
            final(self).notes_map() == old(self).notes_map(),
            final(self).spec_id() == old(self).spec_id(),
            final(self).duration() == dur,
            final(self).spec_offset() == offset,
    {
        self.offset = offset;
        self.dur = dur;
    }
}

} // verus!
