//! The decode side's own state: which channel it plays, which file, what it has opened ahead.
//!
//! Every read, decode and audio push happens there, so the screen never blocks on I/O. The outside
//! holds the pipelines themselves and does as it is told here; a pipeline is known by its file.

use vstd::prelude::*;
use crate::decode::{
    amended_by, choose_source, merge, preopens, rollover, rolls_over, source_of, Order, Source,
};
use crate::tv::Cmd;

verus! {

/// What the decode side holds.
#[derive(Clone, Copy, PartialEq, Eq, Structural, Debug)]
pub struct Deck {
    /// The channel that was tuned last.
    pub src: Option<usize>,
    pub gen: u64,
    /// Hold music instead of the channel's own sound.
    pub guide: bool,
    /// The file of the active pipeline.
    pub active: Option<usize>,
    /// The file of the next program's pipeline, opened ahead of time.
    pub next: Option<usize>,
    /// A helper is opening the next program.
    pub opening: bool,
}

/// What a command leads to.
#[derive(Clone, Copy, PartialEq, Eq, Structural, Debug)]
pub enum Act {
    Stay,
    /// Play this channel.
    Switch(usize),
    /// Hand the active pipeline back and go quiet.
    Park,
    /// Drop the queued music or channel sound.
    Hush,
}

/// What a pass of the decode side does.
#[derive(Clone, Copy, PartialEq, Eq, Structural, Debug)]
pub enum Pass {
    /// There is nothing to play: wait for a command.
    Idle,
    /// Switch to this channel again: its schedule has moved on.
    Roll(usize),
    /// Read ahead, ship frames and sound.
    Play,
}

/// `d` once a command has come, `more` of them behind a tune, and what it leads to.
pub open spec fn commanded(d: Deck, first: Option<Cmd>, more: Seq<Cmd>) -> (Deck, Act) {
    match first {
        Some(Cmd::Tune { src, gen, guide }) => {
            let o = amended_by(Order { src, gen, guide, stop: false }, more);
            (
                Deck { gen: o.gen, guide: o.guide, ..d },
                if o.stop {
                    Act::Park
                } else {
                    Act::Switch(o.src)
                },
            )
        },
        Some(Cmd::Music(m)) => (Deck { guide: m, ..d }, Act::Hush),
        Some(Cmd::Stop) => (d, Act::Park),
        None => (d, Act::Stay),
    }
}

/// `d` without its active pipeline.
pub open spec fn released(d: Deck) -> Deck {
    Deck { active: None, ..d }
}

/// What a pass does on `d`, the schedule wanting file `wanted` at `offset`.
pub open spec fn pass_of(d: Deck, wanted: usize, eof: bool, front: Option<i64>, offset: int) -> Pass {
    match (d.active, d.src) {
        (Some(file), Some(ch)) => if rolls_over(wanted, file, eof, front, offset) {
            Pass::Roll(ch)
        } else {
            Pass::Play
        },
        _ => Pass::Idle,
    }
}

impl Deck {
    /// What plays was tuned.
    pub open spec fn wf(self) -> bool {
        self.active is Some ==> self.src is Some
    }

    /// Nothing has been tuned.
    pub fn new() -> (r: Deck)
        ensures
            r == (Deck {
                src: None,
                gen: 0,
                guide: false,
                active: None,
                next: None,
                opening: false,
            }),
            r.wf(),
    {
        Deck { src: None, gen: 0, guide: false, active: None, next: None, opening: false }
    }

    /// Whether to wait for a command for as long as it takes: with something to play it is a look
    /// of 3 ms.
    pub fn waits(&self) -> (r: bool)
        ensures
            r == (self.active is None),
    {
        self.active.is_none()
    }

    /// Takes a command, and all that are behind it if it is a tune: only the latest keypress
    /// matters.
    pub fn command(&mut self, first: Option<Cmd>, more: &Vec<Cmd>) -> (r: Act)
        requires
            old(self).wf(),
        ensures
            (*final(self), r) == commanded(*old(self), first, more@),
            final(self).wf(),
    {
        match first {
            Some(Cmd::Tune { src, gen, guide }) => {
                let o = merge(src, gen, guide, more);
                self.gen = o.gen;
                self.guide = o.guide;
                if o.stop {
                    Act::Park
                } else {
                    Act::Switch(o.src)
                }
            },
            Some(Cmd::Music(m)) => {
                self.guide = m;
                Act::Hush
            },
            Some(Cmd::Stop) => Act::Park,
            None => Act::Stay,
        }
    }

    /// Gives the active pipeline up: the slot of the channel that it goes back to.
    pub fn park(&mut self) -> (r: Option<usize>)
        requires
            old(self).wf(),
        ensures
            *final(self) == released(*old(self)),
            r == (if old(self).active is Some {
                old(self).src
            } else {
                None
            }),
            old(self).active is Some ==> r is Some,
            final(self).wf(),
    {
        let r = if self.active.is_some() { self.src } else { None };
        self.active = None;
        r
    }

    /// Turns to channel `to`: the slot of the channel that the active pipeline goes back to.
    pub fn leave_for(&mut self, to: usize) -> (r: Option<usize>)
        requires
            old(self).wf(),
        ensures
            *final(self) == (Deck { src: Some(to), ..released(*old(self)) }),
            r == (if old(self).active is Some {
                old(self).src
            } else {
                None
            }),
            old(self).active is Some ==> r is Some,
            final(self).wf(),
    {
        let r = self.park();
        self.src = Some(to);
        r
    }

    /// Where the pipeline for `file` comes from, the channel's slot holding the one of `slot`.
    /// What was opened ahead is used up if it is that.
    pub fn find(&mut self, slot: Option<usize>, file: usize) -> (r: Source)
        requires
            old(self).wf(),
        ensures
            r == source_of(slot, old(self).next, file),
            *final(self) == (if r is Next {
                Deck { next: None, ..*old(self) }
            } else {
                *old(self)
            }),
            final(self).wf(),
    {
        let r = choose_source(slot, self.next, file);
        if let Source::Next = r {
            self.next = None;
        }
        r
    }

    /// The pipeline of `file` is active from now on, if it could be opened. Whether it was there
    /// with frames decoded; if not, it seeks first.
    pub fn land(&mut self, file: Option<usize>, decoded: usize) -> (hit: bool)
        requires
            old(self).wf(),
            old(self).src is Some,
        ensures
            *final(self) == (Deck { active: file, ..*old(self) }),
            hit == (file is Some && decoded > 0),
            final(self).wf(),
    {
        self.active = file;
        file.is_some() && decoded > 0
    }

    /// What this pass does: the schedule of the channel wants `wanted` at `offset`; the active
    /// pipeline's next frame is at `front`, and it has been read to the end if `eof`.
    pub fn pass(&self, wanted: usize, eof: bool, front: Option<i64>, offset: i64) -> (r: Pass)
        ensures
            r == pass_of(*self, wanted, eof, front, offset as int),
    {
        match (self.active, self.src) {
            (Some(file), Some(ch)) => if rollover(wanted, file, eof, front, offset) {
                Pass::Roll(ch)
            } else {
                Pass::Play
            },
            _ => Pass::Idle,
        }
    }

    /// Whether to have a helper open `file`, the next program, now: an open would otherwise stall
    /// decoding at every program boundary.
    pub fn open_ahead(&mut self, remaining: i64, file: usize) -> (r: bool)
        requires
            old(self).wf(),
        ensures
            r == (remaining < 3_000_000 && !old(self).opening && old(self).next != Some(file)),
            *final(self) == (Deck { opening: old(self).opening || r, ..*old(self) }),
            final(self).wf(),
    {
        let r = preopens(remaining, self.opening, self.next, file);
        if r {
            self.opening = true;
        }
        r
    }

    /// The helper is done, with the pipeline of `file` or with none.
    pub fn opened(&mut self, file: Option<usize>)
        requires
            old(self).wf(),
        ensures
            *final(self) == (Deck { next: file, opening: false, ..*old(self) }),
            final(self).wf(),
    {
        self.next = file;
        self.opening = false;
    }
}

/// After a stop nothing plays until a tune: no other command switches, and a pass is idle.
pub proof fn stopped_until_tuned(
    d: Deck,
    first: Option<Cmd>,
    more: Seq<Cmd>,
    wanted: usize,
    eof: bool,
    front: Option<i64>,
    offset: int,
)
    requires
        !(first matches Some(Cmd::Tune { .. })),
    ensures
        commanded(released(d), first, more).0.active is None,
        !(commanded(released(d), first, more).1 is Switch),
        pass_of(commanded(released(d), first, more).0, wanted, eof, front, offset) == Pass::Idle,
{
}

/// What was opened ahead for the program that comes on is what is played: nothing is opened at the
/// boundary.
pub proof fn the_next_program_is_ready(d: Deck, slot: Option<usize>, file: usize)
    requires
        d.next == Some(file),
    ensures
        source_of(slot, d.next, file) != Source::Cold,
{
}

/// A tune switches to its channel, and what the pictures are tagged with is its own; a stop parks;
/// a word about the music leaves the channel and what is open.
pub proof fn commands_are_obeyed(d: Deck, src: usize, gen: u64, guide: bool, m: bool)
    ensures
        ({
            let none = Seq::<Cmd>::empty();
            let (a, act) = commanded(d, Some(Cmd::Tune { src, gen, guide }), none);
            let (b, hush) = commanded(d, Some(Cmd::Music(m)), none);
            &&& act == Act::Switch(src) && a.gen == gen && a.guide == guide
            &&& a.active == d.active && a.next == d.next
            &&& hush == Act::Hush && b.guide == m && b.active == d.active && b.src == d.src && b.gen
                == d.gen
            &&& commanded(d, Some(Cmd::Stop), none) == (d, Act::Park)
            &&& commanded(d, None, none) == (d, Act::Stay)
        }),
{
}

/// Of all commands that have piled up behind a tune only what they come to counts: a stop at the end
/// parks, and a tune at the end switches to its channel.
pub proof fn only_the_last_keypress_counts(
    d: Deck,
    src: usize,
    gen: u64,
    guide: bool,
    more: Seq<Cmd>,
    last: usize,
    tag: u64,
)
    ensures
        commanded(d, Some(Cmd::Tune { src, gen, guide }), more.push(Cmd::Stop)).1 == Act::Park,
        commanded(
            d,
            Some(Cmd::Tune { src, gen, guide }),
            more.push(Cmd::Tune { src: last, gen: tag, guide }),
        ).1 == Act::Switch(last),
        commanded(
            d,
            Some(Cmd::Tune { src, gen, guide }),
            more.push(Cmd::Tune { src: last, gen: tag, guide }),
        ).0.gen == tag,
{
    assert(more.push(Cmd::Stop).drop_last() =~= more);
    assert(more.push(Cmd::Tune { src: last, gen: tag, guide }).drop_last() =~= more);
}

/// The deck moves on to another file of its channel as soon as the schedule wants one, plays on what
/// it has while that is near enough to the schedule's point, and has nothing to do without a file.
pub proof fn the_deck_plays_what_is_wanted(
    d: Deck,
    wanted: usize,
    eof: bool,
    front: Option<i64>,
    offset: int,
)
    requires
        d.wf(),
    ensures
        d.active is None ==> pass_of(d, wanted, eof, front, offset) == Pass::Idle,
        d.active is Some && d.active != Some(wanted) ==> pass_of(d, wanted, eof, front, offset)
            == Pass::Roll(d.src->0),
        d.active == Some(wanted) && front is Some && front->0 <= offset + 1_000_000 ==> pass_of(
            d,
            wanted,
            eof,
            front,
            offset,
        ) == Pass::Play,
        d.active == Some(wanted) && front is None && !eof ==> pass_of(
            d,
            wanted,
            eof,
            front,
            offset,
        ) == Pass::Play,
{
}

} // verus!
