//! The control-side engine: owns the timeline, drives the transport from the
//! worker's timestamps, and edits the worker's graph by sending messages.

use crate::clip::{Clip, ClipId, ClipNote, NoteAt};
use crate::ids::IdAllocator;
use crate::message::{is_node, is_note, Message, ModuleKind, Node, Note, SetParam};
use crate::queue::{Receiver, Sender};
use crate::tempo::{ticks_per_bar, ticks_per_bar_exec, ticks_to_ns, ticks_to_ns_exec, Tempo, Ticks};
use crate::track::{Track, TrackId};
use vstd::prelude::*;

verus! {

/// The identifiers of `tracks`, in order.
pub open spec fn track_ids(tracks: Seq<Track>) -> Seq<usize> {
    tracks.map_values(|t: Track| t.spec_id())
}

/// The master node's audio inputs for tracks with identifiers `ids`: the
/// first output of each track's node.
pub open spec fn master_inputs(ids: Seq<usize>) -> Seq<(usize, usize)> {
    ids.map_values(|t: usize| (t, 0usize))
}

/// Whether `m` installs a master node that sums the tracks `ids`.
pub open spec fn is_master(m: Message, ids: Seq<usize>) -> bool {
    is_node(m, 0, ModuleKind::Sum, master_inputs(ids), Seq::empty())
}

/// The notes fired by `tracks` as the position moves from `prev` to `cur`,
/// track by track, each with the control modules of its track.
pub open spec fn fired(tracks: Seq<Track>, prev: Ticks, cur: Ticks) -> Seq<(Seq<usize>, ClipNote)>
    decreases tracks.len(),
{
    if tracks.len() == 0 {
        Seq::empty()
    } else {
        fired(tracks.drop_last(), prev, cur) + fired_by(tracks.last(), prev, cur)
    }
}

/// The notes fired by one track, with its control modules.
pub open spec fn fired_by(t: Track, prev: Ticks, cur: Ticks) -> Seq<(Seq<usize>, ClipNote)> {
    t.spec_notes_to_fire(prev, cur).map_values(|e: NoteAt| (t.control_ids(), e.1))
}

/// When the note-off of a note of duration `dur` fired at `ts` is due: its
/// duration later (none for a negative duration), at most the last instant.
pub open spec fn off_time(ts: u128, dur: Ticks, bpm: u32, ppqn: u32) -> u128 {
    let d: nat = if dur >= 0 { ticks_to_ns(dur as nat, bpm as nat, ppqn as nat) } else { 0 };
    if ts + d > u128::MAX { u128::MAX } else { (ts + d) as u128 }
}

/// Whether `n` is the note-off for the fired note `f` (with its control
/// modules) fired at `ts`.
pub open spec fn is_off_for(n: Note, f: (Seq<usize>, ClipNote), ts: u128, bpm: u32, ppqn: u32) -> bool {
    &&& n.ids@ == f.0
    &&& n.midi == f.1.midi
    &&& n.velocity == 0
    &&& !n.on
    &&& n.timestamp == off_time(ts, f.1.dur, bpm, ppqn)
}

/// Whether `log`, from index `base` on, holds exactly a note-on at `ts` for
/// each fired note of `f`, in order.
pub open spec fn ons_logged(log: Seq<Message>, base: int, f: Seq<(Seq<usize>, ClipNote)>, ts: u128) -> bool {
    &&& log.len() == base + f.len()
    &&& forall|x: int|
        0 <= x < f.len() ==> is_note(#[trigger] log[base + x], f[x].0, f[x].1.midi, f[x].1.vel, true, ts)
}

/// Whether `offs` holds exactly the note-off for each fired note of `f`.
pub open spec fn offs_for(offs: Seq<Note>, f: Seq<(Seq<usize>, ClipNote)>, ts: u128, bpm: u32, ppqn: u32) -> bool {
    &&& offs.len() == f.len()
    &&& forall|x: int| 0 <= x < f.len() ==> is_off_for(#[trigger] offs[x], f[x], ts, bpm, ppqn)
}

/// The pending notes due by `ts`.
pub open spec fn due(events: Seq<Note>, ts: u128) -> Seq<Note> {
    events.filter(|n: Note| n.timestamp <= ts)
}

/// The pending notes not yet due at `ts`.
pub open spec fn not_due(events: Seq<Note>, ts: u128) -> Seq<Note> {
    events.filter(|n: Note| n.timestamp > ts)
}

/// The messages that send `notes`.
pub open spec fn note_messages(notes: Seq<Note>) -> Seq<Message> {
    notes.map_values(|n: Note| Message::Note(n))
}

/// After a track is removed, the master node sums exactly the first outputs
/// of the tracks that remain: each remaining track is an input, in order,
/// and the removed track no longer is.
pub proof fn lemma_master_after_remove(tracks: Seq<Track>, k: int)
    requires
        0 <= k < tracks.len(),
        forall|i: int, j: int| 0 <= i < j < tracks.len() ==> tracks[i].spec_id() != tracks[j].spec_id(),
    ensures
        master_inputs(track_ids(tracks.remove(k))).len() == tracks.len() - 1,
        forall|i: int|
            0 <= i < tracks.len() - 1 ==> master_inputs(track_ids(tracks.remove(k)))[i] == (
                if i < k { tracks[i] } else { tracks[i + 1] }.spec_id(),
                0usize,
            ),
        !master_inputs(track_ids(tracks.remove(k))).contains((tracks[k].spec_id(), 0usize)),
{
    let rest = tracks.remove(k);
    let m = master_inputs(track_ids(rest));
    if m.contains((tracks[k].spec_id(), 0usize)) {
        let i = choose|i: int| 0 <= i < m.len() && m[i] == (tracks[k].spec_id(), 0usize);
        if i < k {
            assert(tracks[i].spec_id() != tracks[k].spec_id());
        } else {
            assert(tracks[k].spec_id() != tracks[i + 1].spec_id());
        }
    }
}

/// A note-off is never sent early: of the pending note-offs and those just
/// scheduled, a step at `now` sends exactly those due by `now`. So the
/// note-off of a note fired at `t` goes out no earlier than `t` plus the
/// note's duration, whenever that instant is representable.
pub proof fn lemma_note_off_not_early(
    events: Seq<Note>,
    now: u128,
    i: int,
    f: (Seq<usize>, ClipNote),
    t: u128,
    bpm: u32,
    ppqn: u32,
)
    requires
        0 <= i < due(events, now).len(),
        is_off_for(due(events, now)[i], f, t, bpm, ppqn),
        f.1.dur >= 0,
        t + ticks_to_ns(f.1.dur as nat, bpm as nat, ppqn as nat) <= u128::MAX,
    ensures
        now >= t + ticks_to_ns(f.1.dur as nat, bpm as nat, ppqn as nat),
{
    lemma_filter_all(events, now);
}

/// Every note in `due(events, now)` is due by `now`.
proof fn lemma_filter_all(events: Seq<Note>, now: u128)
    ensures
        forall|i: int| 0 <= i < due(events, now).len() ==> (#[trigger] due(events, now)[i]).timestamp <= now,
    decreases events.len(),
{
    reveal(Seq::filter);
    if events.len() > 0 {
        lemma_filter_all(events.drop_last(), now);
    }
}

/// The interface from the application to the audio worker.
///
/// The engine does not synthesize; it sends the messages that build and
/// play the worker's graph.
pub struct Engine {
    rx: Receiver<Message>,
    tx: Sender<Message>,
    /// Timestamps published by the worker.
    ts_rx: ringbuf::Consumer<u128>,
    id_alloc: IdAllocator,
    tempo: Tempo,
    tracks: Vec<Track>,
    /// Note-offs waiting for their time.
    events: Vec<Note>,
    /// Whether due note-offs are still sent while playback is paused.
    offs_while_paused: bool,
    /// Every message sent to the worker, oldest first.
    sent: Ghost<Seq<Message>>,
}

impl Engine {
    pub closed spec fn log(&self) -> Seq<Message> {
        self.sent@
    }

    pub closed spec fn spec_tempo(&self) -> Tempo {
        self.tempo
    }

    pub closed spec fn track_seq(&self) -> Seq<Track> {
        self.tracks@
    }

    pub closed spec fn pending(&self) -> Seq<Note> {
        self.events@
    }

    pub closed spec fn ids(&self) -> IdAllocator {
        self.id_alloc
    }

    pub closed spec fn spec_offs_while_paused(&self) -> bool {
        self.offs_while_paused
    }

    pub open spec fn wf(&self) -> bool {
        &&& self.spec_tempo().wf()
        &&& self.ids().reserved_ids().contains(0)
        &&& forall|i: int| 0 <= i < self.track_seq().len() ==> (#[trigger] self.track_seq()[i]).wf()
        &&& forall|i: int|
            0 <= i < self.track_seq().len() ==> self.ids().is_taken(#[trigger] self.track_seq()[i].spec_id())
        &&& forall|i: int, j: int|
            0 <= i < j < self.track_seq().len() ==> self.track_seq()[i].spec_id() != self.track_seq()[j].spec_id()
        &&& forall|i: int| 0 <= i < self.pending().len() ==> !(#[trigger] self.pending()[i]).on
    }

    /// An engine stays well formed when only its messages change and its
    /// allocator keeps every identifier taken.
    proof fn lemma_wf_frame(old: &Engine, new: &Engine)
        requires
            old.wf(),
            new.spec_tempo() == old.spec_tempo(),
            new.track_seq() == old.track_seq(),
            new.pending() == old.pending(),
            new.ids().reserved_ids() == old.ids().reserved_ids(),
            forall|x: usize| old.ids().is_taken(x) ==> new.ids().is_taken(x),
        ensures
            new.wf(),
    {
        assert forall|i: int| 0 <= i < new.pending().len() implies !(#[trigger] new.pending()[i]).on by {
            assert(!old.pending()[i].on);
        }
        assert forall|i: int| 0 <= i < new.track_seq().len() implies (#[trigger] new.track_seq()[i]).wf() by {
            assert(old.track_seq()[i].wf());
        }
        assert forall|i: int| 0 <= i < new.track_seq().len() implies new.ids().is_taken(
            #[trigger] new.track_seq()[i].spec_id(),
        ) by {
            assert(old.ids().is_taken(old.track_seq()[i].spec_id()));
        }
    }

    /// An engine stays well formed when only its messages and its pending
    /// note-offs change.
    proof fn lemma_wf_new_pending(old: &Engine, new: &Engine)
        requires
            old.wf(),
            new.spec_tempo() == old.spec_tempo(),
            new.track_seq() == old.track_seq(),
            new.ids() == old.ids(),
            forall|i: int| 0 <= i < new.pending().len() ==> !(#[trigger] new.pending()[i]).on,
        ensures
            new.wf(),
    {
        assert forall|i: int| 0 <= i < new.track_seq().len() implies (#[trigger] new.track_seq()[i]).wf() by {
            assert(old.track_seq()[i].wf());
        }
        assert forall|i: int| 0 <= i < new.track_seq().len() implies new.ids().is_taken(
            #[trigger] new.track_seq()[i].spec_id(),
        ) by {
            assert(old.ids().is_taken(old.track_seq()[i].spec_id()));
        }
    }

    /// An engine stays well formed when only its transport's loop or play
    /// state changes.
    proof fn lemma_wf_frame_tempo(old: &Engine, new: &Engine)
        requires
            old.wf(),
            new.spec_tempo().wf() == old.spec_tempo().wf(),
            new.track_seq() == old.track_seq(),
            new.pending() == old.pending(),
            new.ids() == old.ids(),
        ensures
            new.wf(),
    {
        assert forall|i: int| 0 <= i < new.pending().len() implies !(#[trigger] new.pending()[i]).on by {
            assert(!old.pending()[i].on);
        }
        assert forall|i: int| 0 <= i < new.track_seq().len() implies (#[trigger] new.track_seq()[i]).wf() by {
            assert(old.track_seq()[i].wf());
        }
        assert forall|i: int| 0 <= i < new.track_seq().len() implies new.ids().is_taken(
            #[trigger] new.track_seq()[i].spec_id(),
        ) by {
            assert(old.ids().is_taken(old.track_seq()[i].spec_id()));
        }
    }

    /// An engine stays well formed when one track is replaced by a well-formed
    /// track with the same identifier.
    proof fn lemma_wf_track_replaced(old: &Engine, new: &Engine, k: int)
        requires
            old.wf(),
            0 <= k < old.track_seq().len(),
            new.spec_tempo() == old.spec_tempo(),
            new.pending() == old.pending(),
            new.ids() == old.ids(),
            new.track_seq().len() == old.track_seq().len(),
            new.track_seq()[k].wf(),
            new.track_seq()[k].spec_id() == old.track_seq()[k].spec_id(),
            forall|i: int| 0 <= i < old.track_seq().len() && i != k ==> new.track_seq()[i] == old.track_seq()[i],
        ensures
            new.wf(),
            track_ids(new.track_seq()) == track_ids(old.track_seq()),
    {
        assert forall|i: int| 0 <= i < new.pending().len() implies !(#[trigger] new.pending()[i]).on by {
            assert(!old.pending()[i].on);
        }
        assert forall|i: int| 0 <= i < new.track_seq().len() implies (#[trigger] new.track_seq()[i]).wf() by {
            if i != k {
                assert(old.track_seq()[i].wf());
            }
        }
        assert forall|i: int| 0 <= i < new.track_seq().len() implies new.ids().is_taken(
            #[trigger] new.track_seq()[i].spec_id(),
        ) by {
            assert(old.ids().is_taken(old.track_seq()[i].spec_id()));
        }
        assert forall|i: int, j: int| 0 <= i < j < new.track_seq().len() implies new.track_seq()[i].spec_id()
            != new.track_seq()[j].spec_id() by {
            assert(old.track_seq()[i].spec_id() != old.track_seq()[j].spec_id());
        }
        assert(track_ids(new.track_seq()) =~= track_ids(old.track_seq()));
    }

    /// The previous position a step goes by: tick zero when there is none.
    pub open spec fn prev_or_zero(t: Tempo) -> Ticks {
        match t.prev_position {
            Some(p) => p,
            None => 0,
        }
    }

    /// Whether `new` is what a step at timestamp `ts` makes of `old`, apart
    /// from the tracks and identifiers, which a step keeps.
    ///
    /// The transport takes the step. When it was playing and the position
    /// had moved, the messages sent are a note-on at `ts` for each fired
    /// note, in order, then the note-offs due by `ts` among the pending ones
    /// and those just scheduled (one per fired note), in order; the rest stay
    /// pending. When it was playing but the position had not moved, nothing
    /// is fired and the pending note-offs due by `ts` are sent, in order.
    /// When it was stopped, the same happens if the engine lets note-offs
    /// fire while paused; otherwise nothing is sent.
    pub open spec fn stepped_at(old: &Engine, new: &Engine, ts: u128) -> bool {
        let t = old.spec_tempo();
        let prev = Engine::prev_or_zero(t);
        let cur = t.current_position;
        let f = fired(old.track_seq(), prev, cur);
        &&& new.spec_tempo() == t.stepped(ts)
        &&& new.spec_offs_while_paused() == old.spec_offs_while_paused()
        &&& (!t.playing && old.spec_offs_while_paused()) ==> new.log() == old.log() + note_messages(
            due(old.pending(), ts),
        ) && new.pending() == not_due(old.pending(), ts)
        &&& (t.playing && prev == cur) ==> new.log() == old.log() + note_messages(due(old.pending(), ts))
            && new.pending() == not_due(old.pending(), ts)
        &&& (!t.playing && !old.spec_offs_while_paused()) ==> new.log() == old.log() && new.pending()
            == old.pending()
        &&& (t.playing && prev != cur) ==> exists|offs: Seq<Note>|
            {
                &&& offs_for(offs, f, ts, t.bpm, t.ppqn)
                &&& new.pending() == not_due(old.pending() + offs, ts)
                &&& new.log().take(old.log().len() as int) == old.log()
                &&& ons_logged(new.log().take((old.log().len() + f.len()) as int), old.log().len() as int, f, ts)
                &&& new.log().skip((old.log().len() + f.len()) as int) == note_messages(due(old.pending() + offs, ts))
            }
    }

    /// Whether `new` differs from `old` at most in the messages sent.
    pub open spec fn same_but_log(old: &Engine, new: &Engine) -> bool {
        &&& new.spec_tempo() == old.spec_tempo()
        &&& new.track_seq() == old.track_seq()
        &&& new.pending() == old.pending()
        &&& new.ids() == old.ids()
        &&& new.spec_offs_while_paused() == old.spec_offs_while_paused()
    }

    /// An engine with no tracks, a stopped transport, and identifier 0
    /// reserved for the master node.
    pub fn new(sample_rate: u32, rx: Receiver<Message>, tx: Sender<Message>, ts_rx: ringbuf::Consumer<u128>) -> (r:
        Engine)
        ensures
            r.wf(),
            r.log() == Seq::<Message>::empty(),
            r.track_seq() == Seq::<Track>::empty(),
            r.pending() == Seq::<Note>::empty(),
            r.spec_tempo() == Tempo::new_spec(sample_rate),
            r.ids().counter() == 0,
            r.ids().reserved_ids() == set![0usize],
            r.spec_offs_while_paused(),
    {
        let mut id_alloc = IdAllocator::new();
        id_alloc.reserve(0);
        proof {
            assert(id_alloc.reserved_ids() =~= set![0usize]);
        }
        Engine {
            rx,
            tx,
            ts_rx,
            id_alloc,
            tempo: Tempo::new(sample_rate),
            tracks: Vec::new(),
            events: Vec::new(),
            offs_while_paused: true,
            sent: Ghost(Seq::empty()),
        }
    }

    /// The tracks, in the order they were added.
    pub fn tracks(&self) -> (r: &Vec<Track>)
        ensures
            r@ == self.track_seq(),
    {
        &self.tracks
    }

    /// The number of note-offs waiting for their time.
    pub fn pending_count(&self) -> (r: usize)
        ensures
            r == self.pending().len(),
    {
        self.events.len()
    }

    /// The transport.
    pub fn tempo(&self) -> (r: &Tempo)
        ensures
            *r == self.spec_tempo(),
    {
        &self.tempo
    }

    fn send(&mut self, msg: Message)
        ensures
            final(self).log() == old(self).log().push(msg),
            Engine::same_but_log(old(self), final(self)),
    {
        let ghost m = msg;
        self.tx.send(msg);
        self.sent = Ghost(self.sent@.push(m));
    }

    /// Sends a master node that sums every track.
    fn update_master(&mut self)
        ensures
            final(self).log().len() == old(self).log().len() + 1,
            final(self).log().drop_last() == old(self).log(),
            is_master(final(self).log().last(), track_ids(old(self).track_seq())),
            Engine::same_but_log(old(self), final(self)),
    {
        let mut wiring: Vec<(usize, usize)> = Vec::new();
        let mut i: usize = 0;
        while i < self.tracks.len()
            invariant
                i <= self.tracks@.len(),
                wiring@ == master_inputs(track_ids(self.tracks@.take(i as int))),
            decreases self.tracks@.len() - i,
        {
            let id = self.tracks[i].id();
            wiring.push((id, 0));
            proof {
                assert(self.tracks@.take(i + 1) =~= self.tracks@.take(i as int).push(self.tracks@[i as int]));
                assert(wiring@ =~= master_inputs(track_ids(self.tracks@.take(i + 1))));
            }
            i += 1;
        }
        assert(self.tracks@.take(self.tracks@.len() as int) =~= self.tracks@);
        let ctrl: Vec<(usize, usize)> = Vec::new();
        let msg = Message::Node(Node { id: 0, module: ModuleKind::Sum, audio_in: wiring, ctrl_in: ctrl });
        proof {
            assert(ctrl@ =~= Seq::<(usize, usize)>::empty());
        }
        self.send(msg);
    }

    /// Sends the initial master node, which sums every track.
    pub fn init(&mut self)
        ensures
            final(self).log().len() == old(self).log().len() + 1,
            final(self).log().drop_last() == old(self).log(),
            is_master(final(self).log().last(), track_ids(old(self).track_seq())),
            Engine::same_but_log(old(self), final(self)),
    {
        self.update_master();
    }

    /// Finds the track with identifier `id`.
    fn find_track(&self, id: TrackId) -> (r: Option<usize>)
        requires
            self.wf(),
        ensures
            r matches Some(k) ==> k < self.track_seq().len() && self.track_seq()[k as int].spec_id() == id,
            r is None ==> !track_ids(self.track_seq()).contains(id),
    {
        let mut k: usize = 0;
        while k < self.tracks.len()
            invariant
                k <= self.tracks@.len(),
                forall|i: int| 0 <= i < k ==> self.tracks@[i].spec_id() != id,
            decreases self.tracks@.len() - k,
        {
            if self.tracks[k].id() == id {
                return Some(k);
            }
            k += 1;
        }
        proof {
            if track_ids(self.tracks@).contains(id) {
                let j = choose|j: int| 0 <= j < track_ids(self.tracks@).len() && track_ids(self.tracks@)[j] == id;
                assert(self.tracks@[j].spec_id() == id);
            }
        }
        None
    }

    /// Allocates an identifier and sends a node running `module` with these
    /// inputs under it; `None`, with nothing sent, once identifiers run out.
    pub fn create_node(&mut self, module: ModuleKind, audio_in: Vec<(usize, usize)>, ctrl_in: Vec<(usize, usize)>) -> (r:
        Option<usize>)
        requires
            old(self).wf(),
        ensures
            final(self).wf(),
            final(self).spec_tempo() == old(self).spec_tempo(),
            final(self).track_seq() == old(self).track_seq(),
            final(self).pending() == old(self).pending(),
            final(self).ids().reserved_ids() == old(self).ids().reserved_ids(),
            forall|x: usize| old(self).ids().is_taken(x) ==> final(self).ids().is_taken(x),
            r is None <==> old(self).ids().exhausted(),
            r is None ==> final(self).log() == old(self).log(),
            r matches Some(id) ==> {
                &&& !old(self).ids().is_taken(id)
                &&& forall|i: usize| old(self).ids().counter() <= i < id ==> old(self).ids().reserved_ids().contains(i)
                &&& final(self).ids().counter() == id + 1
                &&& final(self).log() == old(self).log().push(final(self).log().last())
                &&& is_node(final(self).log().last(), id, module, audio_in@, ctrl_in@)
            },
    {
        let r = self.id_alloc.allocate();
        proof {
            assert forall|x: usize| old(self).ids().is_taken(x) implies self.id_alloc.is_taken(x) by {
                if x < old(self).ids().counter() {
                    match r {
                        Some(id) => assert(id >= old(self).ids().counter()),
                        None => {},
                    }
                }
            }
            Engine::lemma_wf_frame(old(self), self);
        }
        match r {
            None => None,
            Some(id) => {
                self.send(Message::Node(Node { id, module, audio_in, ctrl_in }));
                Some(id)
            },
        }
    }

    /// Adds a track: a summing node with no inputs, an empty track, and a new
    /// master node. `None`, with nothing changed, once identifiers run out.
    pub fn add_track(&mut self) -> (r: Option<TrackId>)
        requires
            old(self).wf(),
        ensures
            final(self).wf(),
            final(self).spec_tempo() == old(self).spec_tempo(),
            final(self).pending() == old(self).pending(),
            final(self).ids().reserved_ids() == old(self).ids().reserved_ids(),
            forall|x: usize| old(self).ids().is_taken(x) ==> final(self).ids().is_taken(x),
            r is None <==> old(self).ids().exhausted(),
            r is None ==> final(self).log() == old(self).log() && final(self).track_seq() == old(self).track_seq(),
            r matches Some(id) ==> {
                &&& !old(self).ids().is_taken(id)
                &&& forall|i: usize| old(self).ids().counter() <= i < id ==> old(self).ids().reserved_ids().contains(i)
                &&& final(self).ids().counter() == id + 1
                &&& final(self).track_seq().len() == old(self).track_seq().len() + 1
                &&& final(self).track_seq().drop_last() == old(self).track_seq()
                &&& final(self).track_seq().last().spec_id() == id
                &&& final(self).track_seq().last().clip_map() == Map::<Ticks, Clip>::empty()
                &&& final(self).track_seq().last().control_ids().len() == 0
                &&& final(self).log().len() == old(self).log().len() + 2
                &&& final(self).log().take(old(self).log().len() as int) == old(self).log()
                &&& is_node(final(self).log()[old(self).log().len() as int], id, ModuleKind::Sum, Seq::empty(), Seq::empty())
                &&& is_master(final(self).log().last(), track_ids(final(self).track_seq()))
            },
    {
        let ghost log0 = self.sent@;
        let no_audio: Vec<(usize, usize)> = Vec::new();
        let no_ctrl: Vec<(usize, usize)> = Vec::new();
        let r = self.create_node(ModuleKind::Sum, no_audio, no_ctrl);
        match r {
            None => None,
            Some(id) => {
                let ghost log1 = self.sent@;
                let ghost before = self.tracks@;
                let track = Track::new(id);
                self.tracks.push(track);
                proof {
                    assert forall|i: int, j: int| 0 <= i < j < self.tracks@.len() implies self.tracks@[i].spec_id()
                        != self.tracks@[j].spec_id() by {
                        if j == before.len() {
                            assert(old(self).ids().is_taken(before[i].spec_id()));
                        }
                    }
                    assert(self.tracks@.drop_last() =~= before);
                }
                self.update_master();
                proof {
                    assert(self.sent@.take(log0.len() as int) =~= log0);
                    assert(self.sent@[log0.len() as int] == log1.last());
                }
                Some(id)
            },
        }
    }

    /// Removes the track `id` and sends a master node that sums the others;
    /// `false`, with nothing changed, when there is no such track.
    pub fn remove_track(&mut self, id: TrackId) -> (r: bool)
        requires
            old(self).wf(),
        ensures
            final(self).wf(),
            final(self).spec_tempo() == old(self).spec_tempo(),
            final(self).pending() == old(self).pending(),
            final(self).ids() == old(self).ids(),
            r == track_ids(old(self).track_seq()).contains(id),
            !r ==> final(self).log() == old(self).log() && final(self).track_seq() == old(self).track_seq(),
            r ==> {
                &&& exists|k: int|
                    0 <= k < old(self).track_seq().len() && old(self).track_seq()[k].spec_id() == id
                        && final(self).track_seq() == old(self).track_seq().remove(k)
                &&& final(self).log().drop_last() == old(self).log()
                &&& final(self).log().len() == old(self).log().len() + 1
                &&& is_master(final(self).log().last(), track_ids(final(self).track_seq()))
            },
    {
        match self.find_track(id) {
            None => false,
            Some(k) => {
                let ghost before = self.tracks@;
                self.tracks.remove(k);
                proof {
                    assert(self.tracks@ == before.remove(k as int));
                    assert forall|i: int| 0 <= i < self.tracks@.len() implies (#[trigger] self.tracks@[i]).wf() by {
                        if i < k {
                            assert(self.tracks@[i] == before[i]);
                        } else {
                            assert(self.tracks@[i] == before[i + 1]);
                        }
                    }
                    assert forall|i: int| 0 <= i < self.tracks@.len() implies self.id_alloc.is_taken(
                        #[trigger] self.tracks@[i].spec_id(),
                    ) by {
                        if i < k {
                            assert(self.tracks@[i] == before[i]);
                        } else {
                            assert(self.tracks@[i] == before[i + 1]);
                        }
                    }
                    assert forall|i: int, j: int| 0 <= i < j < self.tracks@.len() implies self.tracks@[i].spec_id()
                        != self.tracks@[j].spec_id() by {
                        let i2 = if i < k { i } else { i + 1 };
                        let j2 = if j < k { j } else { j + 1 };
                        assert(self.tracks@[i] == before[i2]);
                        assert(self.tracks@[j] == before[j2]);
                    }
                    assert(track_ids(before)[k as int] == id);
                    assert forall|i: int| 0 <= i < self.events@.len() implies !(#[trigger] self.events@[i]).on by {
                        assert(!old(self).pending()[i].on);
                    }
                }
                self.update_master();
                true
            },
        }
    }

    /// Takes the track at `k` out, leaving an empty track in its place.
    fn take_track(&mut self, k: usize) -> (r: Track)
        requires
            k < old(self).track_seq().len(),
        ensures
            r == old(self).track_seq()[k as int],
            final(self).track_seq().len() == old(self).track_seq().len(),
            forall|i: int|
                0 <= i < old(self).track_seq().len() && i != k ==> final(self).track_seq()[i] == old(self).track_seq()[i],
            final(self).log() == old(self).log(),
            final(self).spec_tempo() == old(self).spec_tempo(),
            final(self).pending() == old(self).pending(),
            final(self).ids() == old(self).ids(),
    {
        self.tracks.push(Track::new(0));
        let t = self.tracks.swap_remove(k);
        proof {
            assert forall|i: int| 0 <= i < old(self).tracks@.len() && i != k implies self.tracks@[i] == old(self).tracks@[i] by {
            }
        }
        t
    }

    /// Puts `t` back at `k`, where `take_track` left a placeholder.
    fn put_track(&mut self, k: usize, t: Track, Ghost(before): Ghost<Seq<Track>>)
        requires
            k < old(self).track_seq().len(),
            before.len() == old(self).track_seq().len(),
            k < before.len(),
            t.wf(),
            t.spec_id() == before[k as int].spec_id(),
            forall|i: int| 0 <= i < before.len() && i != k ==> old(self).track_seq()[i] == before[i],
        ensures
            final(self).track_seq() == before.update(k as int, t),
            final(self).log() == old(self).log(),
            final(self).spec_tempo() == old(self).spec_tempo(),
            final(self).pending() == old(self).pending(),
            final(self).ids() == old(self).ids(),
    {
        self.tracks.set(k, t);
        proof {
            assert(self.tracks@ =~= before.update(k as int, t));
        }
    }

    /// Sets the control modules of track `track_id`, sends its summing node
    /// with the given audio inputs, and sends a new master node; `false`,
    /// with nothing changed, when there is no such track.
    pub fn set_track_node(&mut self, track_id: TrackId, audio_in: Vec<(usize, usize)>, control: Vec<usize>) -> (r: bool)
        requires
            old(self).wf(),
        ensures
            final(self).wf(),
            final(self).spec_tempo() == old(self).spec_tempo(),
            final(self).pending() == old(self).pending(),
            final(self).ids() == old(self).ids(),
            r == track_ids(old(self).track_seq()).contains(track_id),
            !r ==> final(self).log() == old(self).log() && final(self).track_seq() == old(self).track_seq(),
            r ==> {
                &&& track_ids(final(self).track_seq()) == track_ids(old(self).track_seq())
                &&& forall|i: int|
                    0 <= i < old(self).track_seq().len() ==> (#[trigger] final(self).track_seq()[i]).clip_map()
                        == old(self).track_seq()[i].clip_map()
                &&& forall|i: int|
                    0 <= i < old(self).track_seq().len() ==> (#[trigger] final(self).track_seq()[i]).control_ids()
                        == if old(self).track_seq()[i].spec_id() == track_id {
                        control@
                    } else {
                        old(self).track_seq()[i].control_ids()
                    }
                &&& final(self).log().len() == old(self).log().len() + 2
                &&& final(self).log().take(old(self).log().len() as int) == old(self).log()
                &&& is_node(final(self).log()[old(self).log().len() as int], track_id, ModuleKind::Sum, audio_in@, Seq::empty())
                &&& is_master(final(self).log().last(), track_ids(final(self).track_seq()))
            },
    {
        let k = match self.find_track(track_id) {
            None => return false,
            Some(k) => k,
        };
        let ghost before = self.tracks@;
        let ghost log0 = self.sent@;
        let mut t = self.take_track(k);
        t.set_control(control);
        self.put_track(k, t, Ghost(before));
        proof {
            Engine::lemma_wf_track_replaced(old(self), self, k as int);
            assert(track_ids(before)[k as int] == track_id);
            assert forall|i: int| 0 <= i < before.len() && i != k implies before[i].spec_id() != track_id by {
                if i < k {
                    assert(before[i].spec_id() != before[k as int].spec_id());
                } else {
                    assert(before[k as int].spec_id() != before[i].spec_id());
                }
            }
        }
        let ghost mid = *self;
        let no_ctrl: Vec<(usize, usize)> = Vec::new();
        self.send(Message::Node(Node { id: track_id, module: ModuleKind::Sum, audio_in, ctrl_in: no_ctrl }));
        let ghost log1 = self.sent@;
        self.update_master();
        proof {
            assert(self.sent@.take(log0.len() as int) =~= log0);
            assert(self.sent@[log0.len() as int] == log1.last());
            Engine::lemma_wf_frame(&mid, self);
        }
        true
    }

    /// Allocates a clip identifier and puts an empty clip one bar long at
    /// `position` on track `track_id`, replacing a clip that started there.
    /// The identifier is allocated even when there is no such track; `None`,
    /// with nothing changed, once identifiers run out.
    pub fn add_clip_to_track(&mut self, track_id: TrackId, position: Ticks) -> (r: Option<ClipId>)
        requires
            old(self).wf(),
        ensures
            final(self).wf(),
            final(self).spec_tempo() == old(self).spec_tempo(),
            final(self).pending() == old(self).pending(),
            final(self).log() == old(self).log(),
            final(self).track_seq().len() == old(self).track_seq().len(),
            final(self).ids().reserved_ids() == old(self).ids().reserved_ids(),
            forall|x: usize| old(self).ids().is_taken(x) ==> final(self).ids().is_taken(x),
            r is None <==> old(self).ids().exhausted(),
            r is None ==> final(self).track_seq() == old(self).track_seq(),
            r matches Some(id) ==> {
                &&& !old(self).ids().is_taken(id)
                &&& forall|i: usize| old(self).ids().counter() <= i < id ==> old(self).ids().reserved_ids().contains(i)
                &&& final(self).ids().counter() == id + 1
                &&& forall|i: int|
                    0 <= i < old(self).track_seq().len() && old(self).track_seq()[i].spec_id() != track_id
                        ==> #[trigger] final(self).track_seq()[i] == old(self).track_seq()[i]
                &&& forall|i: int|
                    0 <= i < old(self).track_seq().len() && old(self).track_seq()[i].spec_id() == track_id
                        ==> exists|c: Clip|
                        {
                            &&& c.spec_id() == id
                            &&& c.notes_map() == Map::<Ticks, Seq<ClipNote>>::empty()
                            &&& c.spec_offset() == 0
                            &&& c.duration() == ticks_per_bar(
                                old(self).spec_tempo().time_signature,
                                old(self).spec_tempo().ppqn as nat,
                            )
                            &&& Track::clip_put(old(self).track_seq()[i], #[trigger] final(self).track_seq()[i], position, c)
                        }
            },
    {
        let r = self.id_alloc.allocate();
        proof {
            assert forall|x: usize| old(self).ids().is_taken(x) implies self.id_alloc.is_taken(x) by {
                if x < old(self).ids().counter() {
                    match r {
                        Some(id) => assert(id >= old(self).ids().counter()),
                        None => {},
                    }
                }
            }
            Engine::lemma_wf_frame(old(self), self);
        }
        let id = match r {
            None => return None,
            Some(id) => id,
        };
        let dur = ticks_per_bar_exec(self.tempo.time_signature, self.tempo.ppqn);
        let clip = Clip::new(id, dur);
        let ghost mid = *self;
        match self.find_track(track_id) {
            None => {
                proof {
                    assert forall|i: int| 0 <= i < old(self).track_seq().len() implies old(self).track_seq()[i].spec_id()
                        != track_id by {
                        assert(track_ids(old(self).track_seq())[i] == old(self).track_seq()[i].spec_id());
                    }
                }
            },
            Some(k) => {
                let ghost before = self.tracks@;
                let mut t = self.take_track(k);
                proof {
                    assert(before[k as int].wf());
                }
                t.add_clip(position, clip);
                self.put_track(k, t, Ghost(before));
                proof {
                    Engine::lemma_wf_track_replaced(&mid, self, k as int);
                    assert forall|i: int| 0 <= i < before.len() && i != k implies before[i].spec_id() != track_id by {
                        if i < k {
                            assert(before[i].spec_id() != before[k as int].spec_id());
                        } else {
                            assert(before[k as int].spec_id() != before[i].spec_id());
                        }
                    }
                }
            },
        }
        Some(id)
    }

    /// Adds `note` at `position` to the clip `clip_id` of track `track_id`;
    /// does nothing when there is no such track or clip.
    pub fn add_note(&mut self, track_id: TrackId, clip_id: ClipId, note: ClipNote, position: Ticks)
        requires
            old(self).wf(),
        ensures
            final(self).wf(),
            final(self).spec_tempo() == old(self).spec_tempo(),
            final(self).pending() == old(self).pending(),
            final(self).log() == old(self).log(),
            final(self).ids() == old(self).ids(),
            final(self).track_seq().len() == old(self).track_seq().len(),
            forall|i: int|
                0 <= i < old(self).track_seq().len() && old(self).track_seq()[i].spec_id() != track_id
                    ==> #[trigger] final(self).track_seq()[i] == old(self).track_seq()[i],
            forall|i: int|
                0 <= i < old(self).track_seq().len() && old(self).track_seq()[i].spec_id() == track_id
                    ==> Track::note_put(old(self).track_seq()[i], #[trigger] final(self).track_seq()[i], clip_id, note, position),
    {
        match self.find_track(track_id) {
            None => {
                proof {
                    assert forall|i: int| 0 <= i < old(self).track_seq().len() implies old(self).track_seq()[i].spec_id()
                        != track_id by {
                        assert(track_ids(old(self).track_seq())[i] == old(self).track_seq()[i].spec_id());
                    }
                }
            },
            Some(k) => {
                let ghost before = self.tracks@;
                let mut t = self.take_track(k);
                proof {
                    assert(before[k as int].wf());
                }
                t.add_note(clip_id, note, position);
                self.put_track(k, t, Ghost(before));
                proof {
                    Engine::lemma_wf_track_replaced(old(self), self, k as int);
                    assert forall|i: int| 0 <= i < before.len() && i != k implies before[i].spec_id() != track_id by {
                        if i < k {
                            assert(before[i].spec_id() != before[k as int].spec_id());
                        } else {
                            assert(before[k as int].spec_id() != before[i].spec_id());
                        }
                    }
                }
            },
        }
    }

    /// Loops playback over `start` up to `end`.
    pub fn set_loop(&mut self, start: Ticks, end: Ticks)
        requires
            old(self).wf(),
        ensures
            final(self).wf(),
            final(self).spec_tempo() == (Tempo { looping: Some((start, end)), ..old(self).spec_tempo() }),
            final(self).log() == old(self).log(),
            final(self).track_seq() == old(self).track_seq(),
            final(self).pending() == old(self).pending(),
            final(self).ids() == old(self).ids(),
    {
        self.tempo.looping = Some((start, end));
        proof {
            Engine::lemma_wf_frame_tempo(old(self), self);
        }
    }

    /// Starts playback. Starting from a stop forgets the start time, so the
    /// next step latches a new one.
    pub fn set_play(&mut self)
        requires
            old(self).wf(),
        ensures
            final(self).wf(),
            final(self).spec_tempo() == (Tempo {
                playing: true,
                start_time: if old(self).spec_tempo().playing {
                    old(self).spec_tempo().start_time
                } else {
                    None
                },
                ..old(self).spec_tempo()
            }),
            final(self).log() == old(self).log(),
            final(self).track_seq() == old(self).track_seq(),
            final(self).pending() == old(self).pending(),
            final(self).ids() == old(self).ids(),
    {
        if !self.tempo.playing {
            self.tempo.start_time = None;
        }
        self.tempo.playing = true;
        proof {
            Engine::lemma_wf_frame_tempo(old(self), self);
        }
    }

    /// Pauses playback and forgets the start time. Note-offs already
    /// scheduled still fire when their time comes, unless the engine holds
    /// them while paused.
    pub fn set_pause(&mut self)
        requires
            old(self).wf(),
        ensures
            final(self).wf(),
            final(self).spec_tempo() == (Tempo { playing: false, start_time: None, ..old(self).spec_tempo() }),
            final(self).log() == old(self).log(),
            final(self).track_seq() == old(self).track_seq(),
            final(self).pending() == old(self).pending(),
            final(self).ids() == old(self).ids(),
    {
        self.tempo.playing = false;
        self.tempo.start_time = None;
        proof {
            Engine::lemma_wf_frame_tempo(old(self), self);
        }
    }

    /// Sends a note-on for the modules `ids`, to play at once.
    pub fn send_note_on(&mut self, ids: Vec<usize>, midi: u32, velocity: u8)
        requires
            old(self).wf(),
        ensures
            final(self).wf(),
            Engine::same_but_log(old(self), final(self)),
            final(self).log().drop_last() == old(self).log(),
            final(self).log().len() == old(self).log().len() + 1,
            is_note(final(self).log().last(), ids@, midi, velocity, true, 0),
    {
        self.send(Message::Note(Note { ids, midi, velocity, on: true, timestamp: 0 }));
        proof {
            Engine::lemma_wf_frame(old(self), self);
        }
    }

    /// Sends a note-off for the modules `ids`, to take effect at once.
    pub fn send_note_off(&mut self, ids: Vec<usize>, midi: u32)
        requires
            old(self).wf(),
        ensures
            final(self).wf(),
            Engine::same_but_log(old(self), final(self)),
            final(self).log().drop_last() == old(self).log(),
            final(self).log().len() == old(self).log().len() + 1,
            is_note(final(self).log().last(), ids@, midi, 0, false, 0),
    {
        self.send(Message::Note(Note { ids, midi, velocity: 0, on: false, timestamp: 0 }));
        proof {
            Engine::lemma_wf_frame(old(self), self);
        }
    }

    /// Sends a parameter change.
    pub fn set_param(&mut self, param: SetParam)
        requires
            old(self).wf(),
        ensures
            final(self).wf(),
            Engine::same_but_log(old(self), final(self)),
            final(self).log() == old(self).log().push(Message::SetParam(param)),
    {
        self.send(Message::SetParam(param));
        proof {
            Engine::lemma_wf_frame(old(self), self);
        }
    }

    /// Copies a list of module identifiers.
    fn copy_ids(v: &Vec<usize>) -> (r: Vec<usize>)
        ensures
            r@ == v@,
    {
        let mut out: Vec<usize> = Vec::new();
        let mut i: usize = 0;
        while i < v.len()
            invariant
                i <= v@.len(),
                out@ == v@.take(i as int),
            decreases v@.len() - i,
        {
            out.push(v[i]);
            proof {
                assert(v@.take(i + 1) =~= v@.take(i as int).push(v@[i as int]));
            }
            i += 1;
        }
        assert(v@.take(v@.len() as int) =~= v@);
        out
    }

    /// Sends a note-on at `ts` for each note that track `k` fires between
    /// `prev` and `cur`, and schedules its note-off.
    fn fire_track(&mut self, k: usize, prev: Ticks, cur: Ticks, ts: u128)
        requires
            old(self).wf(),
            k < old(self).track_seq().len(),
        ensures
            final(self).wf(),
            final(self).spec_tempo() == old(self).spec_tempo(),
            final(self).track_seq() == old(self).track_seq(),
            final(self).spec_offs_while_paused() == old(self).spec_offs_while_paused(),
            final(self).ids() == old(self).ids(),
            final(self).log().take(old(self).log().len() as int) == old(self).log(),
            ons_logged(final(self).log(), old(self).log().len() as int, fired_by(old(self).track_seq()[k as int], prev, cur), ts),
            final(self).pending().len() == old(self).pending().len() + fired_by(old(self).track_seq()[k as int], prev, cur).len(),
            final(self).pending().take(old(self).pending().len() as int) == old(self).pending(),
            offs_for(
                final(self).pending().skip(old(self).pending().len() as int),
                fired_by(old(self).track_seq()[k as int], prev, cur),
                ts,
                old(self).spec_tempo().bpm,
                old(self).spec_tempo().ppqn,
            ),
    {
        proof {
            assert(self.tracks@[k as int].wf());
        }
        let notes = self.tracks[k].notes_to_fire(prev, cur);
        let ctrl = Engine::copy_ids(self.tracks[k].controls());
        let ghost f = fired_by(self.tracks@[k as int], prev, cur);
        let ghost log0 = self.sent@;
        let ghost ev0 = self.events@;
        let mut j: usize = 0;
        while j < notes.len()
            invariant
                self.wf(),
                self.tempo == old(self).tempo,
                self.tracks@ == old(self).tracks@,
                self.id_alloc == old(self).id_alloc,
                self.offs_while_paused == old(self).offs_while_paused,
                k < self.tracks@.len(),
                ctrl@ == self.tracks@[k as int].control_ids(),
                notes@ == self.tracks@[k as int].spec_notes_to_fire(prev, cur),
                f == fired_by(self.tracks@[k as int], prev, cur),
                j <= notes@.len(),
                self.sent@.take(log0.len() as int) == log0,
                ons_logged(self.sent@, log0.len() as int, f.take(j as int), ts),
                self.events@.len() == ev0.len() + j,
                self.events@.take(ev0.len() as int) == ev0,
                offs_for(self.events@.skip(ev0.len() as int), f.take(j as int), ts, self.tempo.bpm, self.tempo.ppqn),
            decreases notes@.len() - j,
        {
            let note = notes[j].1;
            let ghost log1 = self.sent@;
            let ghost ev1 = self.events@;
            let on_ids = Engine::copy_ids(&ctrl);
            self.send(Message::Note(Note { ids: on_ids, midi: note.midi, velocity: note.vel, on: true, timestamp: ts }));
            let d: u128 = if note.dur >= 0 {
                ticks_to_ns_exec(note.dur, self.tempo.bpm, self.tempo.ppqn)
            } else {
                0
            };
            let off_ts: u128 = if ts > u128::MAX - d { u128::MAX } else { ts + d };
            let off_ids = Engine::copy_ids(&ctrl);
            let ghost off = Note { ids: off_ids, midi: note.midi, velocity: 0, on: false, timestamp: off_ts };
            self.events.push(Note { ids: off_ids, midi: note.midi, velocity: 0, on: false, timestamp: off_ts });
            proof {
                assert(f[j as int] == (ctrl@, note));
                assert(f.take(j + 1) =~= f.take(j as int).push(f[j as int]));
                assert(self.sent@ == log1.push(self.sent@.last()));
                assert(self.sent@.take(log0.len() as int) =~= log0);
                assert forall|x: int| 0 <= x < f.take(j + 1).len() implies is_note(
                    #[trigger] self.sent@[log0.len() + x],
                    f.take(j + 1)[x].0,
                    f.take(j + 1)[x].1.midi,
                    f.take(j + 1)[x].1.vel,
                    true,
                    ts,
                ) by {
                    if x < j {
                        assert(self.sent@[log0.len() + x] == log1[log0.len() + x]);
                    }
                }
                assert(self.events@ == ev1.push(off));
                assert(self.events@.take(ev0.len() as int) =~= ev1.take(ev0.len() as int));
                assert(self.events@.skip(ev0.len() as int) =~= ev1.skip(ev0.len() as int).push(off));
                assert forall|i: int| 0 <= i < self.events@.len() implies !(#[trigger] self.events@[i]).on by {
                    if i < ev1.len() {
                        assert(!ev1[i].on);
                    }
                }
            }
            j += 1;
        }
        proof {
            assert(f.take(notes@.len() as int) =~= f);
            assert(notes@.len() == f.len());
        }
    }

    /// Sends a note-on at `ts` for each note fired between `prev` and `cur`,
    /// track by track, and schedules their note-offs.
    fn fire_all(&mut self, prev: Ticks, cur: Ticks, ts: u128)
        requires
            old(self).wf(),
        ensures
            final(self).wf(),
            final(self).spec_tempo() == old(self).spec_tempo(),
            final(self).track_seq() == old(self).track_seq(),
            final(self).spec_offs_while_paused() == old(self).spec_offs_while_paused(),
            final(self).ids() == old(self).ids(),
            final(self).log().take(old(self).log().len() as int) == old(self).log(),
            ons_logged(final(self).log(), old(self).log().len() as int, fired(old(self).track_seq(), prev, cur), ts),
            final(self).pending().len() >= old(self).pending().len(),
            final(self).pending().take(old(self).pending().len() as int) == old(self).pending(),
            offs_for(
                final(self).pending().skip(old(self).pending().len() as int),
                fired(old(self).track_seq(), prev, cur),
                ts,
                old(self).spec_tempo().bpm,
                old(self).spec_tempo().ppqn,
            ),
    {
        let ghost log0 = self.sent@;
        let ghost ev0 = self.events@;
        let ghost tracks = self.tracks@;
        let mut i: usize = 0;
        assert(tracks.take(0) =~= Seq::<Track>::empty());
        while i < self.tracks.len()
            invariant
                self.wf(),
                self.tempo == old(self).tempo,
                self.tracks@ == tracks,
                self.id_alloc == old(self).id_alloc,
                self.offs_while_paused == old(self).offs_while_paused,
                i <= tracks.len(),
                self.sent@.take(log0.len() as int) == log0,
                ons_logged(self.sent@, log0.len() as int, fired(tracks.take(i as int), prev, cur), ts),
                self.events@.len() == ev0.len() + fired(tracks.take(i as int), prev, cur).len(),
                self.events@.take(ev0.len() as int) == ev0,
                offs_for(self.events@.skip(ev0.len() as int), fired(tracks.take(i as int), prev, cur), ts, self.tempo.bpm, self.tempo.ppqn),
            decreases tracks.len() - i,
        {
            let ghost log1 = self.sent@;
            let ghost ev1 = self.events@;
            let ghost f0 = fired(tracks.take(i as int), prev, cur);
            let ghost g = fired_by(tracks[i as int], prev, cur);
            self.fire_track(i, prev, cur, ts);
            proof {
                assert(tracks.take(i + 1).drop_last() =~= tracks.take(i as int));
                assert(fired(tracks.take(i + 1), prev, cur) == f0 + g);
                let f1 = f0 + g;
                assert(self.sent@.take(log0.len() as int) =~= log0) by {
                    assert(self.sent@.take(log1.len() as int) == log1);
                }
                assert forall|x: int| 0 <= x < f1.len() implies is_note(
                    #[trigger] self.sent@[log0.len() + x],
                    f1[x].0,
                    f1[x].1.midi,
                    f1[x].1.vel,
                    true,
                    ts,
                ) by {
                    if x < f0.len() {
                        assert(self.sent@.take(log1.len() as int)[log0.len() + x] == log1[log0.len() + x]);
                    } else {
                        let y = x - f0.len();
                        assert(self.sent@[log1.len() + y] == self.sent@[log0.len() + x]);
                        assert(is_note(self.sent@[log1.len() + y], g[y].0, g[y].1.midi, g[y].1.vel, true, ts));
                    }
                }
                assert(self.events@.take(ev0.len() as int) =~= ev0) by {
                    assert(self.events@.take(ev1.len() as int) == ev1);
                }
                let offs = self.events@.skip(ev0.len() as int);
                assert forall|x: int| 0 <= x < f1.len() implies is_off_for(
                    #[trigger] offs[x],
                    f1[x],
                    ts,
                    self.tempo.bpm,
                    self.tempo.ppqn,
                ) by {
                    if x < f0.len() {
                        assert(self.events@.take(ev1.len() as int)[ev0.len() + x] == ev1[ev0.len() + x]);
                        assert(ev1.skip(ev0.len() as int)[x] == ev1[ev0.len() + x]);
                    } else {
                        let y = x - f0.len();
                        assert(self.events@.skip(ev1.len() as int)[y] == offs[x]);
                    }
                }
            }
            i += 1;
        }
        proof {
            assert(tracks.take(tracks.len() as int) =~= tracks);
        }
    }

    /// Sends, in order, every pending note-off due by `ts`, and keeps the
    /// others, in order.
    fn release_due(&mut self, ts: u128)
        requires
            old(self).wf(),
        ensures
            final(self).wf(),
            final(self).spec_tempo() == old(self).spec_tempo(),
            final(self).track_seq() == old(self).track_seq(),
            final(self).spec_offs_while_paused() == old(self).spec_offs_while_paused(),
            final(self).ids() == old(self).ids(),
            final(self).pending() == not_due(old(self).pending(), ts),
            final(self).log() == old(self).log() + note_messages(due(old(self).pending(), ts)),
    {
        let ghost orig = self.events@;
        let ghost log0 = self.sent@;
        let mut rest: Vec<Note> = Vec::new();
        std::mem::swap(&mut self.events, &mut rest);
        assert(orig.take(0) =~= Seq::<Note>::empty());
        while rest.len() > 0
            invariant
                self.tempo == old(self).tempo,
                self.tracks@ == old(self).tracks@,
                self.id_alloc == old(self).id_alloc,
                self.offs_while_paused == old(self).offs_while_paused,
                rest@.len() <= orig.len(),
                rest@ == orig.skip(orig.len() - rest@.len()),
                self.events@ == not_due(orig.take(orig.len() - rest@.len()), ts),
                self.sent@ == log0 + note_messages(due(orig.take(orig.len() - rest@.len()), ts)),
            decreases rest@.len(),
        {
            let ghost p = orig.len() - rest@.len();
            let ghost r0 = rest@;
            let n = rest.remove(0);
            proof {
                assert(orig.take(p + 1) =~= orig.take(p).push(n)) by {
                    assert(r0[0] == orig[p]);
                }
                orig.take(p).lemma_filter_push(n, |n: Note| n.timestamp <= ts);
                orig.take(p).lemma_filter_push(n, |n: Note| n.timestamp > ts);
                assert(rest@ =~= orig.skip(p + 1));
            }
            if n.timestamp <= ts {
                let ghost m = Message::Note(n);
                self.send(Message::Note(n));
                proof {
                    let d = due(orig.take(p), ts);
                    assert(note_messages(d.push(n)) =~= note_messages(d).push(m));
                    assert(log0 + note_messages(d).push(m) =~= (log0 + note_messages(d)).push(m));
                }
            } else {
                self.events.push(n);
            }
        }
        proof {
            assert(orig.take(orig.len() as int) =~= orig);
            let kept = self.events@;
            assert(kept == orig.filter(|n: Note| n.timestamp > ts));
            assert forall|i: int| 0 <= i < kept.len() implies !(#[trigger] kept[i]).on by {
                assert(kept.contains(kept[i]));
                orig.lemma_filter_contains_rev(|n: Note| n.timestamp > ts, kept[i]);
                let j = choose|j: int| 0 <= j < orig.len() && orig[j] == kept[i];
                assert(!old(self).pending()[j].on);
            }
            Engine::lemma_wf_new_pending(old(self), self);
        }
    }

    /// Whether note-offs already scheduled still go out, when due, while
    /// playback is paused (the default), or wait until it resumes.
    pub fn set_offs_while_paused(&mut self, on: bool)
        requires
            old(self).wf(),
        ensures
            final(self).wf(),
            final(self).spec_tempo() == old(self).spec_tempo(),
            final(self).track_seq() == old(self).track_seq(),
            final(self).pending() == old(self).pending(),
            final(self).ids() == old(self).ids(),
            final(self).log() == old(self).log(),
            final(self).spec_offs_while_paused() == on,
    {
        self.offs_while_paused = on;
        proof {
            Engine::lemma_wf_frame(old(self), self);
        }
    }

    /// Reads at most one timestamp from the worker and acts on it.
    ///
    /// With none waiting, returns `None` and changes nothing. When stopped,
    /// the scheduled note-offs that are due go out (unless the engine holds
    /// them while paused) and the transport takes the step. When playing
    /// and the position has moved since the previous step (a missing
    /// previous position counts as tick zero), sends a note-on stamped with
    /// the timestamp for every note that the tracks fire over that move,
    /// track by track, schedules a note-off for each a note's duration
    /// later, then sends, in order, the scheduled note-offs that are due;
    /// the transport then takes the step.
    pub fn run_step(&mut self) -> (r: Option<u128>)
        requires
            old(self).wf(),
        ensures
            final(self).wf(),
            final(self).track_seq() == old(self).track_seq(),
            final(self).ids() == old(self).ids(),
            r is None ==> final(self).spec_tempo() == old(self).spec_tempo() && final(self).log() == old(self).log()
                && final(self).pending() == old(self).pending(),
            r matches Some(ts) ==> Engine::stepped_at(old(self), final(self), ts),
    {
        let popped = self.ts_rx.pop();
        proof {
            Engine::lemma_wf_frame(old(self), self);
        }
        match popped {
            None => None,
            Some(ts) => {
                let ghost mid = *self;
                self.step_at(ts);
                proof {
                    assert(mid.log() == old(self).log());
                    assert(mid.pending() == old(self).pending());
                    assert(mid.spec_tempo() == old(self).spec_tempo());
                    assert(mid.track_seq() == old(self).track_seq());
                    assert(mid.spec_offs_while_paused() == old(self).spec_offs_while_paused());
                    assert(Engine::stepped_at(&mid, self, ts));
                }
                Some(ts)
            },
        }
    }

    /// Acts on the timestamp `ts` from the worker, as `run_step` does once
    /// it has read one.
    pub fn step_at(&mut self, ts: u128)
        requires
            old(self).wf(),
        ensures
            final(self).wf(),
            final(self).track_seq() == old(self).track_seq(),
            final(self).ids() == old(self).ids(),
            Engine::stepped_at(old(self), final(self), ts),
    {
        if !self.tempo.playing {
            if self.offs_while_paused {
                self.release_due(ts);
            }
            let ghost mid = *self;
            self.tempo.step(ts);
            proof {
                Engine::lemma_wf_frame_tempo(&mid, self);
                assert(Engine::stepped_at(old(self), self, ts));
            }
            return;
        }
        let prev = match self.tempo.prev_position {
            Some(p) => p,
            None => 0,
        };
        let cur = self.tempo.current_position;
        let ghost mut offs: Seq<Note> = Seq::empty();
        if prev != cur {
            let ghost log0 = self.sent@;
            let ghost ev0 = self.events@;
            self.fire_all(prev, cur, ts);
            let ghost log1 = self.sent@;
            let ghost ev1 = self.events@;
            self.release_due(ts);
            proof {
                let f = fired(old(self).track_seq(), prev, cur);
                offs = ev1.skip(ev0.len() as int);
                assert(ev1 =~= ev0 + offs);
                assert(self.sent@.take(log0.len() as int) =~= log0) by {
                    assert(self.sent@.take(log1.len() as int) =~= log1);
                    assert(log1.take(log0.len() as int) == log0);
                }
                assert(log1.len() == log0.len() + f.len());
                assert(self.sent@.take((log0.len() + f.len()) as int) =~= log1);
                assert(self.sent@.skip((log0.len() + f.len()) as int) =~= note_messages(due(ev1, ts)));
            }
        } else {
            self.release_due(ts);
        }
        let ghost mid = *self;
        self.tempo.step(ts);
        proof {
            Engine::lemma_wf_frame_tempo(&mid, self);
            if prev != cur {
                let t = old(self).spec_tempo();
                assert(offs_for(offs, fired(old(self).track_seq(), prev, cur), ts, t.bpm, t.ppqn));
            }
            assert(Engine::stepped_at(old(self), self, ts));
        }
    }
}

} // verus!
