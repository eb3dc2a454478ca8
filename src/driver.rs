//! The link protocol engine: dispatches decoded host commands to the card and
//! encodes the responses.
use vstd::prelude::*;

use crate::link::{
    commits, dispatched, lemma_payload_takeover, lemma_run_concat, lemma_run_one, link_wf, next,
    idle_link, no_terminator, opened, opt_seq, run, run_dispatched, Link, LinkEvent, LinkView,
};
use crate::sd::{
    beyond_capacity, cmd_frame, ends_with_block, write_transcript, SdBus, SdCardError,
    SdCardStatus, SpiSdCard, CMD_WRITE_SINGLE, SECTOR_SIZE,
};
use crate::wire::{
    le_value, parse_frame, CMD_END, CMD_WRITE,
    le_bytes, push_dword_le, status_code, status_of_error, Command, Status, CMD_STATUS_GENERAL,
    CMD_STATUS_INIT,
};

verus! {

/// Length byte that precedes a one-byte response.
pub const SHORT_REPLY_LEN: u8 = 1;

/// Length byte that precedes the general status response.
pub const GENERAL_REPLY_LEN: u8 = 10;

/// A response that carries a status alone.
pub open spec fn short_reply(s: Status) -> Seq<u8> {
    seq![SHORT_REPLY_LEN, status_code(s)]
}

/// Status and capacity reported for a card state; the capacity is all ones
/// unless the card is ready.
pub open spec fn general_fields(st: SdCardStatus) -> (Status, u64) {
    match st {
        SdCardStatus::Ready(cap) => (Status::Success, cap),
        SdCardStatus::Init => (Status::SdNotReady, u64::MAX),
        SdCardStatus::Failed => (Status::SdFault, u64::MAX),
    }
}

/// The response to STATUS(general): length, status, a reserved zero byte and
/// the capacity as eight little-endian bytes.
pub open spec fn general_reply(st: SdCardStatus) -> Seq<u8> {
    seq![GENERAL_REPLY_LEN, status_code(general_fields(st).0), 0u8] + le_bytes(
        general_fields(st).1,
    )
}

/// Whether a sector address can be handed to a card in state `st`: it fits
/// the card's 32-bit argument and, once the capacity is known, lies below it.
pub open spec fn addressable(st: SdCardStatus, lba: u64) -> bool {
    lba <= u32::MAX && !(st matches SdCardStatus::Ready(cap) && beyond_capacity(lba as u32, cap))
}

/// Whether WRITE opens a session for `lba` on a card in state `st`.
pub open spec fn write_opens(st: SdCardStatus, lba: u64) -> bool {
    st is Ready && addressable(st, lba)
}

/// The status answered to a WRITE that opens no session.
pub open spec fn write_refusal(st: SdCardStatus) -> Status {
    if st is Ready {
        Status::SdFault
    } else {
        Status::SdNotReady
    }
}

/// The link state after `cmd` is carried out on a card in state `st`.
pub open spec fn link_after_command(v: LinkView, cmd: Command, st: SdCardStatus) -> LinkView {
    match cmd {
        Command::Write(lba) => if write_opens(st, lba) {
            opened(v, lba)
        } else {
            v
        },
        _ => v,
    }
}

/// The link state after a byte whose dispatch, if a WRITE, met card state `st`.
pub open spec fn link_after(v: LinkView, b: u8, st: SdCardStatus) -> LinkView {
    match dispatched(v, b) {
        Some(cmd) => link_after_command(next(v, b), cmd, st),
        None => next(v, b),
    }
}

/// The one-byte response for `s`.
pub fn short_response(s: Status) -> (r: Vec<u8>)
    ensures
        r@ == short_reply(s),
{
    let mut r: Vec<u8> = Vec::new();
    r.push(SHORT_REPLY_LEN);
    r.push(s.code());
    assert(r@ =~= short_reply(s));
    r
}

/// The response to STATUS(general) for a card in state `st`.
pub fn general_response(st: SdCardStatus) -> (r: Vec<u8>)
    ensures
        r@ == general_reply(st),
{
    let (status, cap) = match st {
        SdCardStatus::Ready(cap) => (Status::Success, cap),
        SdCardStatus::Init => (Status::SdNotReady, u64::MAX),
        SdCardStatus::Failed => (Status::SdFault, u64::MAX),
    };
    let mut r: Vec<u8> = Vec::new();
    r.push(GENERAL_REPLY_LEN);
    r.push(status.code());
    r.push(0);
    let ghost head = r@;
    push_dword_le(&mut r, cap);
    assert(head =~= seq![GENERAL_REPLY_LEN, status_code(general_fields(st).0), 0u8]);
    r
}

/// Before any initialisation the card is never reported ready: STATUS(general)
/// answers "not ready" with an all-ones capacity.
pub proof fn lemma_status_before_init()
    ensures
        general_reply(SdCardStatus::Init)[1] == status_code(Status::SdNotReady),
        general_reply(SdCardStatus::Init)[1] != status_code(Status::Success),
        general_reply(SdCardStatus::Init).subrange(3, 11) == le_bytes(u64::MAX),
{
    let r = general_reply(SdCardStatus::Init);
    assert(r.subrange(3, 11) =~= le_bytes(u64::MAX));
}

/// The device: a card, and the host link that drives it.
pub struct Driver<B: SdBus> {
    sd: SpiSdCard<B>,
    link: Link,
}

impl<B: SdBus> Driver<B> {
    /// The state of the card.
    pub open spec fn card_status(&self) -> SdCardStatus {
        self.card().card_status()
    }

    /// The card, with its logs.
    pub closed spec fn card(&self) -> SpiSdCard<B> {
        self.sd
    }

    /// The state of the host link.
    pub closed spec fn link_view(&self) -> LinkView {
        self.link@
    }

    /// Every byte clocked out to the card so far.
    pub open spec fn sent(&self) -> Seq<u8> {
        self.card().sent()
    }

    /// Every byte clocked in from the card so far.
    pub open spec fn received(&self) -> Seq<u8> {
        self.card().received()
    }

    /// The link is in one of its reachable states.
    pub open spec fn wf(&self) -> bool {
        link_wf(self.link_view())
    }

    /// A device around `sd`, with nothing received from the host.
    pub fn new(sd: SpiSdCard<B>) -> (r: Self)
        ensures
            r.card() == sd,
            r.link_view() == crate::link::idle_link(),
            r.wf(),
    {
        Driver { sd, link: Link::new() }
    }

    /// Answers STATUS: the general mode reports state and capacity, the init
    /// mode re-runs the card initialisation; another mode gets no response.
    fn handle_status(&mut self, mode: u8) -> (r: Option<Vec<u8>>)
        ensures
            final(self).link_view() == old(self).link_view(),
            mode == CMD_STATUS_GENERAL ==> final(self).card() == old(self).card() && (r matches Some(
                v,
            ) && v@ == general_reply(old(self).card_status())),
            mode == CMD_STATUS_INIT ==> (r matches Some(v) && init_response(
                old(self).card(),
                final(self).card(),
                v@,
            )),
            mode != CMD_STATUS_GENERAL && mode != CMD_STATUS_INIT ==> (r is None)
                && final(self).card() == old(self).card(),
    {
        if mode == CMD_STATUS_GENERAL {
            Some(general_response(self.sd.status()))
        } else if mode == CMD_STATUS_INIT {
            let res = self.sd.init();
            let status = match res {
                Ok(_) => Status::Success,
                Err(e) => Status::from(e),
            };
            let v = short_response(status);
            assert(v@ == init_reply_of(res));
            Some(v)
        } else {
            None
        }
    }

    /// Answers READ: "not ready" before the card is initialised; on success
    /// the status is followed by the 512 bytes of the sector.
    fn handle_read(&mut self, lba: u64) -> (r: Vec<u8>)
        ensures
            final(self).link_view() == old(self).link_view(),
            final(self).card_status() == old(self).card_status(),
            read_response(old(self).card(), final(self).card(), lba, r@),
    {
        if let SdCardStatus::Ready(_) = self.sd.status() {
        } else {
            return short_response(Status::SdNotReady);
        }
        if lba > u32::MAX as u64 {
            return short_response(Status::SdFault);
        }
        let res = self.sd.read_sector(lba as u32);
        let ghost g = res;
        match res {
            Ok(data) => {
                let mut r = short_response(Status::Success);
                let ghost head = r@;
                let mut i: usize = 0;
                while i < data.len()
                    invariant
                        data@.len() == SECTOR_SIZE,
                        i <= data@.len(),
                        r@ == head + data@.subrange(0, i as int),
                        head == short_reply(Status::Success),
                    decreases data.len() - i,
                {
                    r.push(data[i]);
                    assert(r@ =~= head + data@.subrange(0, i + 1));
                    i = i + 1;
                }
                assert(data@.subrange(0, SECTOR_SIZE as int) =~= data@);
                assert(r@ == read_reply(g));
                r
            },
            Err(e) => {
                let r = short_response(Status::from(e));
                assert(r@ == read_reply(g));
                r
            },
        }
    }

    /// Answers WRITE: opens a payload session when the card is ready and the
    /// sector addressable, else refuses it.
    fn handle_write_begin(&mut self, lba: u64) -> (r: Vec<u8>)
        requires
            link_wf(old(self).link_view()),
            old(self).link_view().pending is None,
            old(self).link_view().frame.len() == 0,
            !old(self).link_view().discarding,
        ensures
            final(self).card() == old(self).card(),
            write_opens(old(self).card_status(), lba) ==> final(self).link_view() == opened(
                old(self).link_view(),
                lba,
            ) && r@ == short_reply(Status::Success),
            !write_opens(old(self).card_status(), lba) ==> final(self).link_view()
                == old(self).link_view()
                && r@ == short_reply(write_refusal(old(self).card_status())),
            link_wf(final(self).link_view()),
    {
        match self.sd.status() {
            SdCardStatus::Ready(cap) => {
                if lba > u32::MAX as u64 {
                    short_response(Status::SdFault)
                } else if (lba as u32 as u64) * (SECTOR_SIZE as u64) >= cap {
                    short_response(Status::SdFault)
                } else {
                    self.link.begin_write(lba);
                    short_response(Status::Success)
                }
            },
            _ => short_response(Status::SdNotReady),
        }
    }

    /// Commits a completed payload to its sector and answers the outcome.
    fn handle_write_done(&mut self, lba: u64, data: &Vec<u8>) -> (r: Vec<u8>)
        requires
            data@.len() == SECTOR_SIZE,
        ensures
            final(self).link_view() == old(self).link_view(),
            final(self).card_status() == old(self).card_status(),
            commit_response(old(self).card(), final(self).card(), lba, data@, r@),
    {
        if lba > u32::MAX as u64 {
            return short_response(Status::SdFault);
        }
        let res = self.sd.write_sector(lba as u32, data.as_slice());
        let status = match res {
            Ok(_) => Status::Success,
            Err(e) => Status::from(e),
        };
        let r = short_response(status);
        assert(r@ == write_reply(res));
        r
    }
}

impl<B: SdBus> Driver<B> {
    /// Carries out one decoded command and returns its response, if any.
    fn handle_command(&mut self, cmd: Command) -> (r: Option<Vec<u8>>)
        requires
            link_wf(old(self).link_view()),
            old(self).link_view() == crate::link::idle_link(),
        ensures
            link_wf(final(self).link_view()),
            final(self).link_view() == link_after_command(
                old(self).link_view(),
                cmd,
                old(self).card_status(),
            ),
            response_for(cmd, old(self).card(), final(self).card(), r),
            !(cmd matches Command::Status(m) && m == CMD_STATUS_INIT) ==> final(self).card_status()
                == old(self).card_status(),
    {
        match cmd {
            Command::Status(mode) => self.handle_status(mode),
            Command::Read(lba) => Some(self.handle_read(lba)),
            Command::Write(lba) => Some(self.handle_write_begin(lba)),
        }
    }

    /// Takes in one byte from the host and returns the response it calls
    /// for, if any; each response is to be sent and flushed before the next.
    pub fn handle_byte(&mut self, b: u8) -> (r: Option<Vec<u8>>)
        requires
            old(self).wf(),
        ensures
            final(self).wf(),
            final(self).link_view() == link_after(old(self).link_view(), b, old(self).card_status()),
            dispatched(old(self).link_view(), b) matches Some(cmd) ==> response_for(cmd, old(self).card(), final(self).card(), r),
            commits(old(self).link_view(), b) ==> (r matches Some(v) && commit_response(
                old(self).card(),
                final(self).card(),
                old(self).link_view().pending.unwrap().0,
                old(self).link_view().pending.unwrap().1.push(b),
                v@,
            )),
            dispatched(old(self).link_view(), b) is None && !commits(old(self).link_view(), b)
                ==> (r is None) && final(self).card() == old(self).card(),
            !(dispatched(old(self).link_view(), b) matches Some(Command::Status(m)) && m
                == CMD_STATUS_INIT) ==> final(self).card_status() == old(self).card_status(),
    {
        match self.link.feed(b) {
            LinkEvent::Nothing => None,
            LinkEvent::Dispatch(cmd) => self.handle_command(cmd),
            LinkEvent::Commit(lba, data) => {
                assert(data@ =~= data@.drop_last().push(b));
                Some(self.handle_write_done(lba, &data))
            },
        }
    }

    /// Takes in the bytes that the host sent and returns the responses they
    /// call for, in order. While a write session collects payload, bytes that
    /// do not complete the sector are payload alone: they get no response.
    pub fn poll(&mut self, input: &[u8]) -> (r: Vec<Vec<u8>>)
        requires
            old(self).wf(),
        ensures
            final(self).wf(),
            quiet_input(old(self).link_view(), input@) ==> final(self).card() == old(self).card()
                && final(self).link_view() == run(old(self).link_view(), input@) && r@.len()
                == quiet_replies(run_dispatched(old(self).link_view(), input@), old(self).card_status()).len()
                && forall|k: int|
                0 <= k < r@.len() ==> #[trigger] r@[k]@ == quiet_replies(
                    run_dispatched(old(self).link_view(), input@),
                    old(self).card_status(),
                )[k],
            old(self).link_view() == idle_link() && write_then_payload(
                input@,
                le_value(input@.subrange(1, 9)),
                input@.subrange(10, input@.len() as int),
            ) && input@.len() < 10 + SECTOR_SIZE && write_opens(
                old(self).card_status(),
                le_value(input@.subrange(1, 9)),
            ) ==> r@.len() == 1 && r@[0]@ == short_reply(Status::Success) && final(self).card()
                == old(self).card() && final(self).link_view().pending == Some(
                (le_value(input@.subrange(1, 9)), input@.subrange(10, input@.len() as int)),
            ),
            old(self).link_view().pending is Some && old(self).link_view().pending.unwrap().1.len()
                + input@.len() == SECTOR_SIZE ==> r@.len() == 1 && commit_response(
                old(self).card(),
                final(self).card(),
                old(self).link_view().pending.unwrap().0,
                old(self).link_view().pending.unwrap().1 + input@,
                r@[0]@,
            ) && final(self).link_view().pending is None,
            old(self).link_view().pending matches Some((lba, d)) && d.len() + input@.len()
                < SECTOR_SIZE ==> r@.len() == 0 && final(self).link_view() == run(
                old(self).link_view(),
                input@,
            ) && final(self).card_status() == old(self).card_status() && final(self).sent()
                == old(self).sent(),
    {
        let ghost v0 = self.link@;
        let ghost completes = v0.pending is Some && v0.pending.unwrap().1.len() + input@.len()
            == SECTOR_SIZE;
        let ghost wlba = le_value(input@.subrange(1, 9));
        let ghost opens = write_opens(old(self).card_status(), wlba);
        let ghost wr = v0 == idle_link() && input@.len() >= 10 && write_then_payload(
            input@,
            wlba,
            input@.subrange(10, input@.len() as int),
        ) && input@.len() < 10 + SECTOR_SIZE && opens;
        let ghost reply0 = if opens {
            short_reply(Status::Success)
        } else {
            short_reply(write_refusal(old(self).card_status()))
        };
        let ghost takeover = v0.pending matches Some((lba, d)) && d.len() + input@.len()
            < SECTOR_SIZE;
        let mut out: Vec<Vec<u8>> = Vec::new();
        let mut i: usize = 0;
        proof {
            if completes {
                assert(v0.pending.unwrap().1 + input@.subrange(0, 0) =~= v0.pending.unwrap().1);
            }
            if wr {
                assert(input@.subrange(0, 0) =~= Seq::<u8>::empty());
                assert(v0.frame =~= input@.subrange(0, 0));
            }
        }
        while i < input.len()
            invariant
                i <= input@.len(),
                self.wf(),
                v0 == old(self).link_view(),
                takeover == (v0.pending matches Some((lba, d)) && d.len() + input@.len()
                    < SECTOR_SIZE),
                quiet_input(v0, input@) ==> self.card() == old(self).card() && self.link_view()
                    == run(v0, input@.subrange(0, i as int)) && self.link_view().pending is None
                    && out@.len() == quiet_replies(
                    run_dispatched(v0, input@.subrange(0, i as int)),
                    old(self).card_status(),
                ).len() && forall|k: int|
                    0 <= k < out@.len() ==> #[trigger] out@[k]@ == quiet_replies(
                        run_dispatched(v0, input@.subrange(0, i as int)),
                        old(self).card_status(),
                    )[k],
                wr == (v0 == idle_link() && input@.len() >= 10 && write_then_payload(
                    input@,
                    wlba,
                    input@.subrange(10, input@.len() as int),
                ) && input@.len() < 10 + SECTOR_SIZE && opens),
                wlba == le_value(input@.subrange(1, 9)),
                opens == write_opens(old(self).card_status(), wlba),
                reply0 == (if opens {
                    short_reply(Status::Success)
                } else {
                    short_reply(write_refusal(old(self).card_status()))
                }),
                wr && i <= 9 ==> out@.len() == 0 && self.card() == old(self).card()
                    && self.link_view() == (LinkView { frame: input@.subrange(0, i as int), ..v0 }),
                wr && i >= 10 ==> out@.len() == 1 && out@[0]@ == reply0 && self.card() == old(
                    self,
                ).card() && self.link_view() == (LinkView {
                    frame: Seq::empty(),
                    discarding: false,
                    pending: Some((wlba, input@.subrange(10, i as int))),
                }),
                completes == (v0.pending is Some && v0.pending.unwrap().1.len() + input@.len()
                    == SECTOR_SIZE),
                completes && i < input@.len() ==> out@.len() == 0 && self.card() == old(self).card()
                    && self.link_view() == (LinkView {
                    pending: Some((v0.pending.unwrap().0, v0.pending.unwrap().1 + input@.subrange(0, i as int))),
                    ..v0
                }),
                completes && i == input@.len() ==> out@.len() == 1 && commit_response(
                    old(self).card(),
                    self.card(),
                    v0.pending.unwrap().0,
                    v0.pending.unwrap().1 + input@,
                    out@[0]@,
                ) && self.link_view().pending is None,
                takeover ==> out@.len() == 0 && self.link_view() == run(
                    v0,
                    input@.subrange(0, i as int),
                ) && self.card_status() == old(self).card_status() && self.sent() == old(
                    self,
                ).sent(),
            decreases input.len() - i,
        {
            let ghost before = self.link_view();
            let ghost out_before = out@;
            let ghost pre_i = input@.subrange(0, i as int);
            let ghost pre_n = input@.subrange(0, i + 1);
            let ghost st0 = old(self).card_status();
            proof {
                if quiet_input(v0, input@) {
                    lemma_run_concat(v0, pre_i, seq![input@[i as int]]);
                    lemma_run_one(before, input@[i as int]);
                    assert(pre_i + seq![input@[i as int]] =~= pre_n);
                    lemma_run_concat(v0, pre_n, input@.subrange(i + 1, input@.len() as int));
                    assert(pre_n + input@.subrange(i + 1, input@.len() as int) =~= input@);
                    let d = opt_seq(dispatched(before, input@[i as int]));
                    assert(run_dispatched(v0, pre_n) == run_dispatched(v0, pre_i) + d);
                    if d.len() > 0 {
                        let k = run_dispatched(v0, pre_i).len() as int;
                        assert(run_dispatched(v0, input@)[k] == d[0]);
                        assert(quiet(d[0]));
                    }
                    lemma_quiet_replies_concat(run_dispatched(v0, pre_i), d, st0);
                }
            }
            proof {
                if takeover {
                    lemma_payload_takeover(v0, input@.subrange(0, i as int));
                    lemma_run_concat(v0, input@.subrange(0, i as int), seq![input@[i as int]]);
                    lemma_run_one(before, input@[i as int]);
                    assert(input@.subrange(0, i as int) + seq![input@[i as int]]
                        =~= input@.subrange(0, i + 1));
                }
            }
            proof {
                if completes {
                    let d = v0.pending.unwrap().1;
                    assert((d + input@.subrange(0, i as int)).push(input@[i as int]) =~= d
                        + input@.subrange(0, i + 1));
                    assert(input@.subrange(0, input@.len() as int) =~= input@);
                }
            }
            proof {
                if wr {
                    if i < 9 {
                        assert(input@.subrange(0, 9)[i as int] == input@[i as int]);
                        assert(input@[i as int] != CMD_END);
                        assert(input@.subrange(0, i as int).push(input@[i as int]) =~= input@.subrange(0, i + 1));
                    } else if i == 9 {
                        assert(input@.subrange(0, 9) == input@.subrange(0, i as int));
                        assert(parse_frame(input@.subrange(0, 9)) == Some(Command::Write(wlba)));
                        assert(input@.subrange(10, 10) =~= Seq::<u8>::empty());
                    } else {
                        assert(input@.subrange(10, i as int).push(input@[i as int]) =~= input@.subrange(10, i + 1));
                    }
                }
            }
            let resp = self.handle_byte(input[i]);
            if let Some(v) = resp {
                out.push(v);
            }
            proof {
                if quiet_input(v0, input@) {
                    let d = opt_seq(dispatched(before, input@[i as int]));
                    let q = quiet_replies(d, st0);
                    if d.len() > 0 {
                        assert(d.drop_first() =~= Seq::<Command>::empty());
                        assert(quiet_replies(d.drop_first(), st0) == Seq::<Seq<u8>>::empty());
                    }
                    assert(out@.len() == quiet_replies(run_dispatched(v0, pre_n), st0).len());
                    assert forall|k: int| 0 <= k < out@.len() implies #[trigger] out@[k]@
                        == quiet_replies(run_dispatched(v0, pre_n), st0)[k] by {
                        if k < out_before.len() {
                            assert(out@[k] == out_before[k]);
                        }
                    }
                }
            }
            i = i + 1;
        }
        proof {
            assert(input@.subrange(0, input@.len() as int) =~= input@);
            assert(input@.subrange(0, 0) =~= Seq::<u8>::empty());
        }
        out
    }
}

/// `input` is a WRITE frame for sector `lba` with its terminator, then `q`.
pub open spec fn write_then_payload(input: Seq<u8>, lba: u64, q: Seq<u8>) -> bool {
    &&& input.len() == 10 + q.len()
    &&& input[0] == CMD_WRITE
    &&& no_terminator(input.subrange(0, 9))
    &&& input[9] == CMD_END
    &&& le_value(input.subrange(1, 9)) == lba
    &&& input.subrange(10, input.len() as int) == q
}

/// A command that is answered without the card: a STATUS other than init.
pub open spec fn quiet(c: Command) -> bool {
    c matches Command::Status(m) && m != CMD_STATUS_INIT
}

/// The responses that quiet commands `cs` get from a card in state `st`.
pub open spec fn quiet_replies(cs: Seq<Command>, st: SdCardStatus) -> Seq<Seq<u8>>
    decreases cs.len(),
{
    if cs.len() == 0 {
        Seq::empty()
    } else {
        (if cs[0] == Command::Status(CMD_STATUS_GENERAL) {
            seq![general_reply(st)]
        } else {
            Seq::empty()
        }) + quiet_replies(cs.drop_first(), st)
    }
}

/// The responses of `a + b` are those of `a`, then those of `b`.
pub proof fn lemma_quiet_replies_concat(a: Seq<Command>, b: Seq<Command>, st: SdCardStatus)
    ensures
        quiet_replies(a + b, st) == quiet_replies(a, st) + quiet_replies(b, st),
    decreases a.len(),
{
    if a.len() == 0 {
        assert(a + b =~= b);
        assert(Seq::<Seq<u8>>::empty() + quiet_replies(b, st) =~= quiet_replies(b, st));
    } else {
        lemma_quiet_replies_concat(a.drop_first(), b, st);
        assert((a + b).drop_first() =~= a.drop_first() + b);
        assert((a + b)[0] == a[0]);
        let h = if a[0] == Command::Status(CMD_STATUS_GENERAL) {
            seq![general_reply(st)]
        } else {
            Seq::<Seq<u8>>::empty()
        };
        assert(h + (quiet_replies(a.drop_first(), st) + quiet_replies(b, st)) =~= h
            + quiet_replies(a.drop_first(), st) + quiet_replies(b, st));
    }
}

/// Input that, from link state `v`, dispatches only quiet commands and
/// opens no write session.
pub open spec fn quiet_input(v: LinkView, input: Seq<u8>) -> bool {
    &&& v.pending is None
    &&& forall|i: int| 0 <= i < run_dispatched(v, input).len() ==> quiet(
        #[trigger] run_dispatched(v, input)[i],
    )
}

/// What the response to `cmd` is, for the card `c0` before and `c1` after.
pub open spec fn response_for<B: SdBus>(
    cmd: Command,
    c0: SpiSdCard<B>,
    c1: SpiSdCard<B>,
    r: Option<Vec<u8>>,
) -> bool {
    match cmd {
        Command::Status(m) => if m == CMD_STATUS_GENERAL {
            c1 == c0 && (r matches Some(v) && v@ == general_reply(c0.card_status()))
        } else if m == CMD_STATUS_INIT {
            r matches Some(v) && init_response(c0, c1, v@)
        } else {
            c1 == c0 && r is None
        },
        Command::Read(lba) => r matches Some(v) && read_response(c0, c1, lba, v@),
        Command::Write(lba) => c1 == c0 && (r matches Some(v) && v@ == (if write_opens(
            c0.card_status(),
            lba,
        ) {
            short_reply(Status::Success)
        } else {
            short_reply(write_refusal(c0.card_status()))
        })),
    }
}

/// The response for a sector read's result.
pub open spec fn read_reply(res: Result<Vec<u8>, SdCardError>) -> Seq<u8> {
    match res {
        Ok(v) => short_reply(Status::Success) + v@,
        Err(e) => short_reply(status_of_error(e)),
    }
}

/// The response for a sector write's result.
pub open spec fn write_reply(res: Result<(), SdCardError>) -> Seq<u8> {
    match res {
        Ok(_) => short_reply(Status::Success),
        Err(e) => short_reply(status_of_error(e)),
    }
}

/// The response for an initialisation's result.
pub open spec fn init_reply_of(res: Result<u64, SdCardError>) -> Seq<u8> {
    match res {
        Ok(_) => short_reply(Status::Success),
        Err(e) => short_reply(status_of_error(e)),
    }
}

/// READ of `lba` took card `c0` to `c1` and answered `v`: "not ready"
/// before initialisation and "fault" for an address the card cannot hold,
/// both without bus traffic; else the reply to the card's read result.
pub open spec fn read_response<B: SdBus>(c0: SpiSdCard<B>, c1: SpiSdCard<B>, lba: u64, v: Seq<u8>) -> bool {
    if !(c0.card_status() is Ready) {
        c1 == c0 && v == short_reply(Status::SdNotReady)
    } else if !addressable(c0.card_status(), lba) {
        c1.sent() == c0.sent() && c1.received() == c0.received() && v == short_reply(Status::SdFault)
    } else {
        exists|res: Result<Vec<u8>, SdCardError>|
            v == read_reply(res) && #[trigger] c0.read_done(&c1, lba as u32, res)
    }
}

/// The commit of `data` to `lba` took card `c0` to `c1` and answered `v`:
/// "fault" without bus traffic for an address the card cannot hold, else the
/// reply to the card's write result.
pub open spec fn commit_response<B: SdBus>(
    c0: SpiSdCard<B>,
    c1: SpiSdCard<B>,
    lba: u64,
    data: Seq<u8>,
    v: Seq<u8>,
) -> bool {
    if !addressable(c0.card_status(), lba) {
        c1.sent() == c0.sent() && c1.received() == c0.received() && v == short_reply(Status::SdFault)
    } else {
        exists|res: Result<(), SdCardError>|
            v == write_reply(res) && #[trigger] c0.write_done(&c1, lba as u32, data, res)
    }
}

/// STATUS(init) took card `c0` to `c1` and answered `v`: the reply to the
/// initialisation's result.
pub open spec fn init_response<B: SdBus>(c0: SpiSdCard<B>, c1: SpiSdCard<B>, v: Seq<u8>) -> bool {
    exists|res: Result<u64, SdCardError>| v == init_reply_of(res) && #[trigger] c0.init_done(&c1, res)
}

} // verus!
