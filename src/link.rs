//! Host-link framing: accumulation of command frames, their dispatch on the
//! terminator, and the write-payload mode that takes the link over until a
//! whole sector has arrived.
use vstd::prelude::*;

use crate::sd::SECTOR_SIZE;
use crate::wire::{parse_frame, Command, CMD_END};

verus! {

/// Most bytes a command frame may hold before the terminator.
pub const FRAME_CAPACITY: usize = 32;

/// Abstract state of the link.
pub struct LinkView {
    /// Bytes of the command frame received so far.
    pub frame: Seq<u8>,
    /// The current frame overflowed: bytes are dropped until the terminator.
    pub discarding: bool,
    /// An open write session: target sector and payload received so far.
    pub pending: Option<(u64, Seq<u8>)>,
}

/// The link as it starts: nothing received, no session.
pub open spec fn idle_link() -> LinkView {
    LinkView { frame: Seq::empty(), discarding: false, pending: None }
}

/// The states the link can be in.
pub open spec fn link_wf(v: LinkView) -> bool {
    &&& v.frame.len() <= FRAME_CAPACITY
    &&& v.discarding ==> v.frame.len() == 0
    &&& v.pending matches Some((lba, d)) ==> d.len() < SECTOR_SIZE && v.frame.len() == 0
        && !v.discarding
}

/// Whether byte `b` completes the payload of the open session.
pub open spec fn commits(v: LinkView, b: u8) -> bool {
    v.pending matches Some((lba, d)) && d.len() + 1 == SECTOR_SIZE
}

/// The command that byte `b` dispatches, if any.
pub open spec fn dispatched(v: LinkView, b: u8) -> Option<Command> {
    if v.pending is None && b == CMD_END && !v.discarding {
        parse_frame(v.frame)
    } else {
        None
    }
}

/// The state of the link after byte `b`.
pub open spec fn next(v: LinkView, b: u8) -> LinkView {
    match v.pending {
        Some((lba, d)) => if d.len() + 1 == SECTOR_SIZE {
            LinkView { pending: None, ..v }
        } else {
            LinkView { pending: Some((lba, d.push(b))), ..v }
        },
        None => if b == CMD_END {
            idle_link()
        } else if v.discarding {
            v
        } else if v.frame.len() == FRAME_CAPACITY {
            LinkView { frame: Seq::empty(), discarding: true, pending: None }
        } else {
            LinkView { frame: v.frame.push(b), ..v }
        },
    }
}

/// The state after a session for sector `lba` opens.
pub open spec fn opened(v: LinkView, lba: u64) -> LinkView {
    LinkView { pending: Some((lba, Seq::empty())), ..v }
}

/// The commands in `o`: none or one.
pub open spec fn opt_seq(o: Option<Command>) -> Seq<Command> {
    match o {
        Some(c) => seq![c],
        None => Seq::empty(),
    }
}

/// The state of the link after the bytes `bs`, in order.
pub open spec fn run(v: LinkView, bs: Seq<u8>) -> LinkView
    decreases bs.len(),
{
    if bs.len() == 0 {
        v
    } else {
        run(next(v, bs[0]), bs.drop_first())
    }
}

/// The commands that the bytes `bs` dispatch, in order.
pub open spec fn run_dispatched(v: LinkView, bs: Seq<u8>) -> Seq<Command>
    decreases bs.len(),
{
    if bs.len() == 0 {
        Seq::empty()
    } else {
        opt_seq(dispatched(v, bs[0])) + run_dispatched(next(v, bs[0]), bs.drop_first())
    }
}

/// No byte of `bs` is the frame terminator.
pub open spec fn no_terminator(bs: Seq<u8>) -> bool {
    forall|i: int| 0 <= i < bs.len() ==> bs[i] != CMD_END
}

/// Feeding `a` then `b` is feeding `a + b`.
pub proof fn lemma_run_concat(v: LinkView, a: Seq<u8>, b: Seq<u8>)
    ensures
        run(v, a + b) == run(run(v, a), b),
        run_dispatched(v, a + b) == run_dispatched(v, a) + run_dispatched(run(v, a), b),
    decreases a.len(),
{
    if a.len() == 0 {
        assert(a + b =~= b);
        assert(Seq::<Command>::empty() + run_dispatched(v, b) =~= run_dispatched(v, b));
    } else {
        let w = next(v, a[0]);
        lemma_run_concat(w, a.drop_first(), b);
        assert((a + b).drop_first() =~= a.drop_first() + b);
        assert((a + b)[0] == a[0]);
        assert(opt_seq(dispatched(v, a[0])) + (run_dispatched(w, a.drop_first())
            + run_dispatched(run(w, a.drop_first()), b)) =~= opt_seq(dispatched(v, a[0]))
            + run_dispatched(w, a.drop_first()) + run_dispatched(run(w, a.drop_first()), b));
    }
}

/// Feeding one byte.
pub proof fn lemma_run_one(v: LinkView, b: u8)
    ensures
        run(v, seq![b]) == next(v, b),
        run_dispatched(v, seq![b]) == opt_seq(dispatched(v, b)),
{
    let s = seq![b];
    assert(s[0] == b);
    assert(s.drop_first() =~= Seq::<u8>::empty());
    assert(run(next(v, b), s.drop_first()) == next(v, b));
    assert(run_dispatched(next(v, b), s.drop_first()) == Seq::<Command>::empty());
    assert(opt_seq(dispatched(v, b)) + Seq::<Command>::empty() =~= opt_seq(dispatched(v, b)));
}

/// While a write session collects payload, every byte is payload: fewer
/// bytes than the rest of the sector dispatch no command, whatever they are,
/// and are appended to the session's data.
pub proof fn lemma_payload_takeover(v: LinkView, bs: Seq<u8>)
    requires
        v.pending is Some,
        v.pending.unwrap().1.len() + bs.len() < SECTOR_SIZE,
    ensures
        run_dispatched(v, bs) == Seq::<Command>::empty(),
        run(v, bs) == (LinkView {
            pending: Some((v.pending.unwrap().0, v.pending.unwrap().1 + bs)),
            ..v
        }),
    decreases bs.len(),
{
    let (lba, d) = v.pending.unwrap();
    if bs.len() == 0 {
        assert(d + bs =~= d);
    } else {
        let w = next(v, bs[0]);
        assert(w == LinkView { pending: Some((lba, d.push(bs[0]))), ..v });
        lemma_payload_takeover(w, bs.drop_first());
        assert(d.push(bs[0]) + bs.drop_first() =~= d + bs);
        assert(opt_seq(dispatched(v, bs[0])) =~= Seq::<Command>::empty());
        assert(Seq::<Command>::empty() + Seq::<Command>::empty() =~= Seq::<Command>::empty());
    }
}

/// Bytes without a terminator, while discarding an overflowed frame, change
/// nothing and dispatch nothing.
pub proof fn lemma_discarding(v: LinkView, bs: Seq<u8>)
    requires
        v.pending is None,
        v.discarding,
        no_terminator(bs),
    ensures
        run(v, bs) == v,
        run_dispatched(v, bs) == Seq::<Command>::empty(),
    decreases bs.len(),
{
    if bs.len() > 0 {
        assert(bs[0] != CMD_END);
        lemma_discarding(v, bs.drop_first());
        assert(Seq::<Command>::empty() + Seq::<Command>::empty() =~= Seq::<Command>::empty());
    }
}

/// Bytes without a terminator that fit in the frame are appended to it and
/// dispatch nothing.
pub proof fn lemma_accumulate(v: LinkView, bs: Seq<u8>)
    requires
        v.pending is None,
        !v.discarding,
        v.frame.len() + bs.len() <= FRAME_CAPACITY,
        no_terminator(bs),
    ensures
        run(v, bs) == (LinkView { frame: v.frame + bs, ..v }),
        run_dispatched(v, bs) == Seq::<Command>::empty(),
    decreases bs.len(),
{
    if bs.len() == 0 {
        assert(v.frame + bs =~= v.frame);
    } else {
        assert(bs[0] != CMD_END);
        let w = next(v, bs[0]);
        assert(w == LinkView { frame: v.frame.push(bs[0]), ..v });
        assert(no_terminator(bs.drop_first()));
        lemma_accumulate(w, bs.drop_first());
        assert(v.frame.push(bs[0]) + bs.drop_first() =~= v.frame + bs);
        assert(Seq::<Command>::empty() + Seq::<Command>::empty() =~= Seq::<Command>::empty());
    }
}

/// From the idle link, a frame of at most the capacity followed by the
/// terminator dispatches exactly the command it encodes, if any, and leaves
/// the link idle.
pub proof fn lemma_frame_dispatch(f: Seq<u8>)
    requires
        f.len() <= FRAME_CAPACITY,
        no_terminator(f),
    ensures
        run_dispatched(idle_link(), f.push(CMD_END)) == opt_seq(parse_frame(f)),
        run(idle_link(), f.push(CMD_END)) == idle_link(),
{
    let v = idle_link();
    lemma_accumulate(v, f);
    assert(v.frame + f =~= f);
    lemma_run_concat(v, f, seq![CMD_END]);
    assert(f + seq![CMD_END] =~= f.push(CMD_END));
    let w = run(v, f);
    lemma_run_one(w, CMD_END);
    assert(Seq::<Command>::empty() + opt_seq(parse_frame(f)) =~= opt_seq(parse_frame(f)));
}

/// A frame longer than the capacity, then the terminator, dispatches no
/// command and leaves the link idle; a well-formed frame sent afterwards is
/// dispatched as from a fresh link.
pub proof fn lemma_oversized_frame_dropped(bs: Seq<u8>, f: Seq<u8>)
    requires
        bs.len() > FRAME_CAPACITY,
        no_terminator(bs),
        f.len() <= FRAME_CAPACITY,
        no_terminator(f),
    ensures
        run_dispatched(idle_link(), bs.push(CMD_END)) == Seq::<Command>::empty(),
        run(idle_link(), bs.push(CMD_END)) == idle_link(),
        run_dispatched(idle_link(), bs.push(CMD_END) + f.push(CMD_END)) == opt_seq(
            parse_frame(f),
        ),
{
    let v = idle_link();
    let a = bs.subrange(0, FRAME_CAPACITY as int);
    let c = bs[FRAME_CAPACITY as int];
    let rest = bs.subrange(FRAME_CAPACITY as int + 1, bs.len() as int);
    assert(no_terminator(a));
    assert(no_terminator(rest));
    lemma_accumulate(v, a);
    let full = run(v, a);
    assert(full.frame =~= a);
    let dropping = next(full, c);
    assert(dropping == LinkView { frame: Seq::<u8>::empty(), discarding: true, pending: None });
    lemma_discarding(dropping, rest);
    let tail = rest.push(CMD_END);
    lemma_run_concat(dropping, rest, seq![CMD_END]);
    assert(rest + seq![CMD_END] =~= tail);
    lemma_run_one(dropping, CMD_END);
    assert(run(dropping, seq![CMD_END]) == idle_link());
    assert(run_dispatched(dropping, seq![CMD_END]) =~= Seq::<Command>::empty());
    let ctail = seq![c] + tail;
    assert(ctail.drop_first() =~= tail);
    assert(run(full, ctail) == run(dropping, tail));
    assert(run_dispatched(full, ctail) =~= Seq::<Command>::empty() + run_dispatched(
        dropping,
        tail,
    ));
    lemma_run_concat(v, a, ctail);
    assert(a + ctail =~= bs.push(CMD_END));
    assert(run_dispatched(v, bs.push(CMD_END)) =~= Seq::<Command>::empty());
    lemma_run_concat(v, bs.push(CMD_END), f.push(CMD_END));
    lemma_frame_dispatch(f);
    assert(Seq::<Command>::empty() + opt_seq(parse_frame(f)) =~= opt_seq(parse_frame(f)));
}

/// Payload of an open write session.
pub struct PendingWrite {
    lba: u64,
    data: Vec<u8>,
}

/// What one byte caused.
pub enum LinkEvent {
    /// Nothing to answer.
    Nothing,
    /// A whole command frame arrived.
    Dispatch(Command),
    /// The last payload byte arrived: write these 512 bytes to this sector.
    Commit(u64, Vec<u8>),
}

/// Framing state of the host link.
pub struct Link {
    frame: Vec<u8>,
    discarding: bool,
    pending: Option<PendingWrite>,
}

impl View for Link {
    type V = LinkView;

    closed spec fn view(&self) -> LinkView {
        LinkView {
            frame: self.frame@,
            discarding: self.discarding,
            pending: match self.pending {
                Some(p) => Some((p.lba, p.data@)),
                None => None,
            },
        }
    }
}

impl Link {
    /// A link with nothing received.
    pub fn new() -> (r: Link)
        ensures
            r@ == idle_link(),
    {
        let r = Link { frame: Vec::new(), discarding: false, pending: None };
        assert(r@.frame =~= Seq::<u8>::empty());
        r
    }

    /// Whether a write session is open.
    pub fn in_payload(&self) -> (r: bool)
        ensures
            r == self@.pending is Some,
    {
        self.pending.is_some()
    }

    /// Takes in one byte from the host.
    pub fn feed(&mut self, b: u8) -> (r: LinkEvent)
        requires
            link_wf(old(self)@),
        ensures
            final(self)@ == next(old(self)@, b),
            link_wf(final(self)@),
            dispatched(old(self)@, b) matches Some(c) ==> (r matches LinkEvent::Dispatch(c2) && c2
                == c),
            commits(old(self)@, b) ==> (r matches LinkEvent::Commit(lba, data) && old(
                self,
            )@.pending == Some((lba, data@.drop_last())) && data@.last() == b && data@.len()
                == SECTOR_SIZE),
            dispatched(old(self)@, b) is None && !commits(old(self)@, b) ==> r is Nothing,
    {
        let mut p: Option<PendingWrite> = None;
        std::mem::swap(&mut p, &mut self.pending);
        match p {
            Some(mut w) => {
                let ghost d = w.data@;
                w.data.push(b);
                assert(w.data@.drop_last() =~= d);
                if w.data.len() == SECTOR_SIZE {
                    LinkEvent::Commit(w.lba, w.data)
                } else {
                    self.pending = Some(w);
                    LinkEvent::Nothing
                }
            },
            None => {
                if b == CMD_END {
                    let was_discarding = self.discarding;
                    let mut frame: Vec<u8> = Vec::new();
                    std::mem::swap(&mut frame, &mut self.frame);
                    self.discarding = false;
                    assert(self@.frame =~= Seq::<u8>::empty());
                    if was_discarding {
                        return LinkEvent::Nothing;
                    }
                    match Command::try_from(frame.as_slice()) {
                        Ok(c) => LinkEvent::Dispatch(c),
                        Err(_) => LinkEvent::Nothing,
                    }
                } else if self.discarding {
                    LinkEvent::Nothing
                } else if self.frame.len() == FRAME_CAPACITY {
                    self.frame = Vec::new();
                    self.discarding = true;
                    assert(self@.frame =~= Seq::<u8>::empty());
                    LinkEvent::Nothing
                } else {
                    self.frame.push(b);
                    LinkEvent::Nothing
                }
            },
        }
    }

    /// Opens a write session for sector `lba`: the next 512 bytes are payload.
    pub fn begin_write(&mut self, lba: u64)
        requires
            link_wf(old(self)@),
            old(self)@.pending is None,
            old(self)@.frame.len() == 0,
            !old(self)@.discarding,
        ensures
            final(self)@ == opened(old(self)@, lba),
            link_wf(final(self)@),
    {
        self.pending = Some(PendingWrite { lba, data: Vec::new() });
        assert(self@.pending == Some((lba, Seq::<u8>::empty())));
        assert(self@ == opened(old(self)@, lba));
    }
}

} // verus!
