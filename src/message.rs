//! Messages between the control side and the audio worker.

use vstd::prelude::*;

verus! {

/// The kinds of synthesis module a node can run.
#[derive(Clone, Copy, Debug, PartialEq, Eq, Structural)]
pub enum ModuleKind {
    Adsr,
    Biquad,
    Buzz,
    ConstCtrl,
    Gain,
    Monitor,
    Pitch,
    Saw,
    Sin,
    SmoothCtrl,
    Sum,
}

/// A graph node: its identifier, the module it runs, and where its audio
/// and control inputs come from, as `(source node, source output)` pairs.
#[derive(Debug)]
pub struct Node {
    pub id: usize,
    pub module: ModuleKind,
    pub audio_in: Vec<(usize, usize)>,
    pub ctrl_in: Vec<(usize, usize)>,
}

/// Sets parameter `param_ix` of node `id`. The value is an `f32` held as its
/// bit pattern, which the engine carries unchanged.
#[derive(Clone, Copy, Debug, PartialEq, Eq, Structural)]
pub struct SetParam {
    pub id: usize,
    pub param_ix: usize,
    pub value: u32,
    pub timestamp: u128,
}

/// A note on or off for each listed node. The pitch is a MIDI note number in
/// `f32` form, held as its bit pattern.
#[derive(Debug)]
pub struct Note {
    pub ids: Vec<usize>,
    pub midi: u32,
    pub velocity: u8,
    pub on: bool,
    pub timestamp: u128,
}

/// A key pressed or released.
#[derive(Clone, Copy, Debug, PartialEq, Eq, Structural)]
pub struct NoteEvent {
    pub down: bool,
    pub note: u8,
    pub velocity: u8,
}

/// What travels to and from the audio worker.
#[derive(Debug)]
pub enum Message {
    /// Install or replace the node at `node.id`.
    Node(Node),
    SetParam(SetParam),
    Note(Note),
    /// A wall-clock marker, in nanoseconds.
    Timestamp(u128),
}

/// Whether `m` is the note message with these fields.
pub open spec fn is_note(m: Message, ids: Seq<usize>, midi: u32, velocity: u8, on: bool, timestamp: u128) -> bool {
    match m {
        Message::Note(n) => n.ids@ == ids && n.midi == midi && n.velocity == velocity && n.on == on
            && n.timestamp == timestamp,
        _ => false,
    }
}

/// Whether `m` installs node `id` running `module` with these inputs.
pub open spec fn is_node(
    m: Message,
    id: usize,
    module: ModuleKind,
    audio_in: Seq<(usize, usize)>,
    ctrl_in: Seq<(usize, usize)>,
) -> bool {
    match m {
        Message::Node(n) => n.id == id && n.module == module && n.audio_in@ == audio_in && n.ctrl_in@
            == ctrl_in,
        _ => false,
    }
}

} // verus!
