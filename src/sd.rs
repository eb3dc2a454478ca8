//! Card protocol engine: reset and initialisation handshake, capacity
//! discovery, and single-sector reads and writes over a byte-exchange bus.
use vstd::prelude::*;

verus! {

/// Bytes in one sector, the unit of every read and write.
pub const SECTOR_SIZE: usize = 512;

/// Bytes of capacity for each step of the v2 geometry size field (512 KiB).
pub const CAPACITY_UNIT: u64 = 524288;

/// Software reset (CMD0).
pub const CMD_GO_IDLE: u8 = 0x40;

/// Interface condition, voltage range and check pattern (CMD8).
pub const CMD_SEND_IF_COND: u8 = 0x48;

/// Read the geometry register (CMD9).
pub const CMD_SEND_CSD: u8 = 0x49;

/// Read one block (CMD17).
pub const CMD_READ_SINGLE: u8 = 0x51;

/// Write one block (CMD24).
pub const CMD_WRITE_SINGLE: u8 = 0x58;

/// The next command is application-specific (CMD55).
pub const CMD_APP: u8 = 0x77;

/// Application-specific initialisation (ACMD41).
pub const ACMD_SEND_OP_COND: u8 = 0x69;

/// Argument of ACMD41 with the high-capacity-support bit set.
pub const HCS_ARG: u32 = 0x40000000;

/// Token that starts a data block.
pub const DATA_START: u8 = 0xFE;

/// Byte clocked out while only listening; also what an idle card sends.
pub const IDLE: u8 = 0xFF;

/// State of the card as last established by `init`.
#[derive(Clone, Copy, Debug, PartialEq, Eq, Structural)]
pub enum SdCardStatus {
    Init,
    Ready(u64),
    Failed,
}

/// Failure of a card transaction.
#[derive(Clone, Copy, Debug, PartialEq, Eq, Structural)]
pub enum SdCardError {
    SpiError,
    Timeout,
    InvalidResponse,
}

/// The storage bus as the card engine sees it: a synchronous byte exchange,
/// a chip-select line and a way to wait.
pub trait SdBus {
    /// Clocks `w` out and returns the byte clocked in at the same time.
    fn transfer(&mut self, w: u8) -> Result<u8, ()>;

    /// Drives chip-select active (low).
    fn select(&mut self);

    /// Drives chip-select inactive (high).
    fn deselect(&mut self);

    /// Waits for about `cycles` processor cycles.
    fn delay(&mut self, cycles: u32);
}

/// Attempt counts of the bounded waits of the card protocol.
#[derive(Clone, Copy, Debug, PartialEq, Eq, Structural)]
pub struct Retries {
    /// Polls for a command response byte.
    pub response_polls: u32,
    /// Polls for a data-start token, or for the card to be ready for data.
    pub token_polls: u32,
    /// Application-specific init commands sent before giving up.
    pub init_attempts: u32,
    /// Polls for the data-response token after a written block.
    pub accept_polls: u32,
    /// Polls for the end of the card's busy signal after a write.
    pub busy_polls: u32,
}

/// The attempt counts used on real hardware.
pub open spec fn standard_retries() -> Retries {
    Retries {
        response_polls: 10,
        token_polls: 10,
        init_attempts: 10,
        accept_polls: 64,
        busy_polls: 1000000,
    }
}

impl Retries {
    /// The attempt counts used on real hardware.
    pub fn standard() -> (r: Retries)
        ensures
            r == standard_retries(),
    {
        Retries {
            response_polls: 10,
            token_polls: 10,
            init_attempts: 10,
            accept_polls: 64,
            busy_polls: 1000000,
        }
    }
}

/// Value of the 16-bit size field of a v2 geometry register.
pub open spec fn csd_size_field(csd: Seq<u8>) -> int {
    csd[8] as int * 256 + csd[9] as int
}

/// Capacity in bytes that a 16-byte geometry register describes; only the
/// v2 layout (top two bits of the first byte equal to 01) is understood.
pub open spec fn csd_capacity(csd: Seq<u8>) -> Result<u64, SdCardError> {
    if csd[0] >> 6u8 == 1 {
        Ok(((csd_size_field(csd) + 1) * CAPACITY_UNIT) as u64)
    } else {
        Err(SdCardError::InvalidResponse)
    }
}

/// A capacity that some v2 geometry register describes.
pub open spec fn valid_capacity(c: u64) -> bool {
    c % CAPACITY_UNIT == 0 && CAPACITY_UNIT <= c <= 65536 * CAPACITY_UNIT
}

/// Whether sector `addr` lies at or beyond a card of `cap` bytes.
pub open spec fn beyond_capacity(addr: u32, cap: u64) -> bool {
    addr as int * SECTOR_SIZE as int >= cap as int
}

/// The six bytes of a card command: index, argument most significant byte
/// first, checksum.
pub open spec fn cmd_frame(cmd: u8, arg: u32, crc: u8) -> Seq<u8> {
    seq![cmd, (arg >> 24u32) as u8, (arg >> 16u32) as u8, (arg >> 8u32) as u8, arg as u8, crc]
}

/// A sequence of `n` idle bytes, clocked out while only listening.
pub open spec fn idle_bytes(n: int) -> Seq<u8> {
    Seq::new(n as nat, |i: int| 0xFFu8)
}

/// `b` is `a` followed by idle bytes only.
pub open spec fn idle_after(a: Seq<u8>, b: Seq<u8>) -> bool {
    b.len() >= a.len() && b == a + idle_bytes(b.len() - a.len())
}

/// `t` is `pre`, idle bytes, a data-start token, `data`, then idle bytes:
/// the shape of what a sector write clocks out.
pub open spec fn write_transcript(pre: Seq<u8>, data: Seq<u8>, t: Seq<u8>) -> bool {
    exists|i: int, j: int|
        #![trigger idle_bytes(i), idle_bytes(j)]
        0 <= i && 0 <= j && t == pre + idle_bytes(i) + seq![0xFEu8] + data + idle_bytes(j)
}

/// What a sector write clocks out after its command frame `pre`: idle bytes
/// only, when it stopped before the data, or else the data-start token and
/// `data` once, between idle bytes.
pub open spec fn write_sent_shape(pre: Seq<u8>, data: Seq<u8>, t: Seq<u8>) -> bool {
    idle_after(pre, t) || write_transcript(pre, data, t)
}

/// Idle bytes after idle bytes are idle bytes after the first sequence.
pub proof fn lemma_idle_after_trans(a: Seq<u8>, b: Seq<u8>, c: Seq<u8>)
    requires
        idle_after(a, b),
        idle_after(b, c),
    ensures
        idle_after(a, c),
{
    assert(c =~= a + idle_bytes(c.len() - a.len()));
}

/// `t` is `before`, then idle bytes, a data-start token, `data`, and two
/// checksum bytes: the shape of what a data-block read clocks in.
pub open spec fn block_received(before: Seq<u8>, data: Seq<u8>, t: Seq<u8>) -> bool {
    exists|k: int|
        #![trigger idle_bytes(k)]
        0 <= k && t.len() == before.len() + k + 1 + data.len() + 2 && t.subrange(
            0,
            before.len() + k + 1 + data.len(),
        ) == before + idle_bytes(k) + seq![DATA_START] + data
}

/// `t` ends with a data-start token, `data` and two checksum bytes.
pub open spec fn ends_with_block(t: Seq<u8>, data: Seq<u8>) -> bool {
    t.len() >= data.len() + 3 && t.subrange(t.len() - data.len() - 3, t.len() - 2) == seq![
        DATA_START,
    ] + data
}

/// A received block is the last thing received.
pub proof fn lemma_block_received_ends(before: Seq<u8>, data: Seq<u8>, t: Seq<u8>)
    requires
        block_received(before, data, t),
    ensures
        ends_with_block(t, data),
{
    let k = choose|k: int|
        #![trigger idle_bytes(k)]
        0 <= k && t.len() == before.len() + k + 1 + data.len() + 2 && t.subrange(
            0,
            before.len() + k + 1 + data.len(),
        ) == before + idle_bytes(k) + seq![DATA_START] + data;
    let n = before.len() + k + 1 + data.len();
    assert(t.subrange(t.len() - data.len() - 3, t.len() - 2) =~= t.subrange(0, n).subrange(
        before.len() + k,
        n,
    ));
    assert((before + idle_bytes(k) + seq![DATA_START] + data).subrange(before.len() + k, n)
        =~= seq![DATA_START] + data);
}

/// `t` ends with a geometry register that describes capacity `c`.
pub open spec fn capacity_received(t: Seq<u8>, c: u64) -> bool {
    exists|csd: Seq<u8>|
        csd.len() == 16 && ends_with_block(t, csd) && #[trigger] csd_capacity(csd) == Ok::<
            u64,
            SdCardError,
        >(c)
}

/// What the replies to the application-specific init command say of the
/// outcome of an initialisation with `budget` attempts: every reply but the
/// last was "busy"; success follows a "ready" reply; a budget used up on
/// "busy" replies gives `Timeout`; stopping earlier without a "ready" reply
/// is an error.
pub open spec fn init_retry_outcome(
    replies: Seq<u8>,
    budget: u32,
    r: Result<u64, SdCardError>,
) -> bool {
    &&& replies.len() <= budget
    &&& forall|i: int| 0 <= i < replies.len() - 1 ==> replies[i] != 0
    &&& r is Ok ==> replies.len() >= 1 && replies.last() == 0
    &&& (0 < budget && replies.len() == budget && replies.last() != 0) ==> r == Err::<
        u64,
        SdCardError,
    >(SdCardError::Timeout)
    &&& (replies.len() < budget && (replies.len() == 0 || replies.last() != 0)) ==> r is Err
}

/// A card whose replies to successive init commands are `card`, "busy" for
/// the first `n - 1` and "ready" for the `n`-th: with a budget of at least
/// `n` attempts the retries stop at the `n`-th; with fewer, initialisation
/// never succeeds, and once the budget is used up it gives `Timeout`.
pub proof fn lemma_init_retry_budget(
    card: Seq<u8>,
    n: int,
    replies: Seq<u8>,
    budget: u32,
    r: Result<u64, SdCardError>,
)
    requires
        1 <= n <= card.len(),
        forall|i: int| 0 <= i < n - 1 ==> card[i] != 0,
        card[n - 1] == 0,
        replies.len() <= card.len(),
        replies == card.subrange(0, replies.len() as int),
        init_retry_outcome(replies, budget, r),
    ensures
        budget >= n ==> replies.len() <= n,
        budget < n ==> !(r is Ok),
        budget < n && 0 < budget && replies.len() == budget ==> r == Err::<u64, SdCardError>(
            SdCardError::Timeout,
        ),
{
    if replies.len() > n {
        assert(replies[n - 1] == card[n - 1]);
    }
    if budget < n && replies.len() >= 1 {
        assert(replies.last() == card[replies.len() - 1]);
    }
}

/// What the replies to the reset (CMD0) and interface-condition (CMD8)
/// commands decide: a reset reply other than "idle", or an interface reply
/// other than 0x01, gives `InvalidResponse` and no init attempt follows;
/// init attempts and success need both replies right.
pub open spec fn handshake_outcome(h: Seq<u8>, op_cond: Seq<u8>, r: Result<u64, SdCardError>) -> bool {
    &&& h.len() <= 2
    &&& h.len() >= 1 && h[0] & 0x7F != 1 ==> h.len() == 1 && r == Err::<u64, SdCardError>(
        SdCardError::InvalidResponse,
    )
    &&& h.len() == 2 && h[1] != 1 ==> r == Err::<u64, SdCardError>(SdCardError::InvalidResponse)
    &&& (op_cond.len() > 0 || r is Ok) ==> h.len() == 2 && h[0] & 0x7F == 1 && h[1] == 1
    &&& h.len() < 2 ==> op_cond.len() == 0
}

/// `t` starts with `p`.
pub open spec fn has_prefix(t: Seq<u8>, p: Seq<u8>) -> bool {
    t.len() >= p.len() && t.subrange(0, p.len() as int) == p
}

/// A sequence that starts with one that starts with `p` starts with `p`.
pub proof fn lemma_keep_prefix(p: Seq<u8>, a: Seq<u8>, b: Seq<u8>)
    requires
        has_prefix(a, p),
        has_prefix(b, a),
    ensures
        has_prefix(b, p),
{
    assert(b.subrange(0, p.len() as int) =~= a.subrange(0, p.len() as int));
}

/// What an initialisation clocks out first: ten idle bytes, then the reset
/// command.
pub open spec fn init_head() -> Seq<u8> {
    idle_bytes(10) + cmd_frame(CMD_GO_IDLE, 0, 0x95)
}

/// After a "ready" reply to the last init attempt, the result is the
/// outcome of the capacity query, read from what was received after some
/// point `p` of the call.
pub open spec fn ready_then_capacity(
    op_cond: Seq<u8>,
    before: Seq<u8>,
    after: Seq<u8>,
    faulted: bool,
    rt: Retries,
    r: Result<u64, SdCardError>,
) -> bool {
    op_cond.len() > 0 && op_cond.last() == 0 ==> exists|p: int|
        before.len() <= p <= after.len() && (!faulted ==> capacity_outcome(
            #[trigger] after.subrange(p, after.len() as int),
            rt,
            r,
        ))
}

/// One command exchange of an initialisation: the frame sent at position
/// `at_sent` of the sent bytes, what was received from position `at_recv`
/// while it and its response polls were clocked, and the reply decided.
pub struct Exchange {
    pub cmd: u8,
    pub arg: u32,
    pub crc: u8,
    pub at_sent: int,
    pub at_recv: int,
    pub rx: Seq<u8>,
    pub reply: Result<u8, SdCardError>,
}

/// Exchange `e` stands in the byte logs, and its reply is what its received
/// bytes decide.
pub open spec fn exchange_holds(e: Exchange, sent: Seq<u8>, recv: Seq<u8>, polls: u32) -> bool {
    &&& 0 <= e.at_sent && e.at_sent + 6 <= sent.len()
    &&& sent.subrange(e.at_sent, e.at_sent + 6) == cmd_frame(e.cmd, e.arg, e.crc)
    &&& 0 <= e.at_recv && e.at_recv + e.rx.len() <= recv.len()
    &&& recv.subrange(e.at_recv, e.at_recv + e.rx.len()) == e.rx
    &&& cmd_outcome(e.rx, polls, e.reply)
}

/// The commands of an initialisation, in order: reset, interface condition
/// with the 2.7-3.6 V range and check pattern, then pairs of the
/// application-command prefix and the init command with the high-capacity
/// bit set.
pub open spec fn init_command(i: int) -> (u8, u32, u8) {
    if i == 0 {
        (CMD_GO_IDLE, 0, 0x95)
    } else if i == 1 {
        (CMD_SEND_IF_COND, 0x1AA, 0x86)
    } else if i % 2 == 0 {
        (CMD_APP, 0, 0)
    } else {
        (ACMD_SEND_OP_COND, HCS_ARG, 0)
    }
}

/// The exchanges `ex` of an initialisation hold in the logs, follow the
/// command order, and the recorded replies are theirs.
pub open spec fn exchanges_match(
    ex: Seq<Exchange>,
    sent: Seq<u8>,
    recv: Seq<u8>,
    polls: u32,
    handshake: Seq<u8>,
    op_cond: Seq<u8>,
) -> bool {
    &&& forall|i: int| 0 <= i < ex.len() ==> #[trigger] exchange_holds(ex[i], sent, recv, polls)
    &&& forall|i: int|
        0 <= i < ex.len() ==> (#[trigger] ex[i].cmd, ex[i].arg, ex[i].crc) == init_command(i)
    &&& handshake.len() >= 1 ==> ex.len() >= 1 && ex[0].reply == Ok::<u8, SdCardError>(handshake[0])
    &&& handshake.len() >= 2 ==> ex.len() >= 2 && ex[1].reply == Ok::<u8, SdCardError>(handshake[1])
    &&& forall|k: int|
        0 <= k < op_cond.len() ==> 3 + 2 * k < ex.len() && #[trigger] ex[3 + 2 * k].reply
            == Ok::<u8, SdCardError>(op_cond[k])
}

/// An exchange that holds in the logs still holds once they grow.
pub proof fn lemma_exchange_grows(e: Exchange, s1: Seq<u8>, r1: Seq<u8>, s2: Seq<u8>, r2: Seq<u8>, polls: u32)
    requires
        exchange_holds(e, s1, r1, polls),
        has_prefix(s2, s1),
        has_prefix(r2, r1),
    ensures
        exchange_holds(e, s2, r2, polls),
{
    assert(s2.subrange(e.at_sent, e.at_sent + 6) =~= s1.subrange(e.at_sent, e.at_sent + 6));
    assert(r2.subrange(e.at_recv, e.at_recv + e.rx.len()) =~= r1.subrange(
        e.at_recv,
        e.at_recv + e.rx.len(),
    ));
}

/// Exchanges that hold in the logs still hold once they grow.
pub proof fn lemma_exchanges_grow(
    ex: Seq<Exchange>,
    s1: Seq<u8>,
    r1: Seq<u8>,
    s2: Seq<u8>,
    r2: Seq<u8>,
    polls: u32,
)
    requires
        forall|i: int| 0 <= i < ex.len() ==> #[trigger] exchange_holds(ex[i], s1, r1, polls),
        has_prefix(s2, s1),
        has_prefix(r2, r1),
    ensures
        forall|i: int| 0 <= i < ex.len() ==> #[trigger] exchange_holds(ex[i], s2, r2, polls),
{
    assert forall|i: int| 0 <= i < ex.len() implies #[trigger] exchange_holds(ex[i], s2, r2, polls) by {
        lemma_exchange_grows(ex[i], s1, r1, s2, r2, polls);
    }
}

/// Without a bus fault an initialisation stops early only on a command
/// that got no response (`Timeout`) or on a wrong handshake reply: no reset
/// reply means `Timeout`; a good reset reply is followed by the interface
/// condition unless that timed out; good replies to both are followed by
/// init attempts unless the first timed out; and attempts that stop early
/// without a "ready" reply end in `Timeout`.
pub open spec fn init_progress(
    h: Seq<u8>,
    op_cond: Seq<u8>,
    ex_len: int,
    faulted: bool,
    budget: u32,
    r: Result<u64, SdCardError>,
) -> bool {
    let to = Err::<u64, SdCardError>(SdCardError::Timeout);
    &&& !faulted && h.len() == 0 ==> r == to
    &&& !faulted && h.len() == 1 && h[0] & 0x7F == 1 ==> ex_len == 1 && r == to
    &&& !faulted && h.len() == 2 && h[0] & 0x7F == 1 && h[1] == 1 && op_cond.len() == 0 ==> r == to
    &&& !faulted && 0 < op_cond.len() < budget && op_cond.last() != 0 ==> r == to
}

/// The capacity that initialisation reports is the one the v2 geometry
/// register the card sent describes: (size field + 1) x 512 KiB.
pub proof fn lemma_capacity_of_register(t: Seq<u8>, c: u64, csd: Seq<u8>)
    requires
        capacity_received(t, c),
        csd.len() == 16,
        ends_with_block(t, csd),
        csd[0] >> 6u8 == 1,
    ensures
        c as int == (csd_size_field(csd) + 1) * CAPACITY_UNIT,
{
    let other = choose|other: Seq<u8>|
        other.len() == 16 && ends_with_block(t, other) && #[trigger] csd_capacity(other) == Ok::<
            u64,
            SdCardError,
        >(c);
    assert forall|i: int| 0 <= i < 16 implies csd[i] == other[i] by {
        assert((seq![DATA_START] + csd)[i + 1] == csd[i]);
        assert((seq![DATA_START] + other)[i + 1] == other[i]);
    }
    assert(csd =~= other);
    assert((csd_size_field(csd) + 1) * CAPACITY_UNIT <= 65536 * CAPACITY_UNIT);
}

/// Bytes polled while waiting for one that meets `hit`, with `budget`
/// polls at most: none but the last meets it, and the polls stop early only
/// on one that does.
pub open spec fn poll_shape(p: Seq<u8>, budget: u32, hit: spec_fn(u8) -> bool) -> bool {
    &&& p.len() <= budget
    &&& forall|i: int| 0 <= i < p.len() - 1 ==> !hit(p[i])
    &&& p.len() < budget ==> p.len() >= 1 && hit(p.last())
}

/// The polls ended on a byte that meets `hit`.
pub open spec fn poll_found(p: Seq<u8>, hit: spec_fn(u8) -> bool) -> bool {
    p.len() >= 1 && hit(p.last())
}

/// A command response byte: its top bit is clear.
pub open spec fn is_response(b: u8) -> bool {
    b < 0x80
}

/// Anything but an idle byte.
pub open spec fn not_idle(b: u8) -> bool {
    b != IDLE
}

/// Outcome of a command exchange from what was received: six bytes while
/// the frame went out, then the response polls.
pub open spec fn cmd_outcome(rx: Seq<u8>, budget: u32, r: Result<u8, SdCardError>) -> bool {
    let p = rx.subrange(6, rx.len() as int);
    &&& rx.len() >= 6
    &&& poll_shape(p, budget, |b: u8| is_response(b))
    &&& match r {
        Ok(v) => poll_found(p, |b: u8| is_response(b)) && v == p.last(),
        Err(e) => e == SdCardError::Timeout && !poll_found(p, |b: u8| is_response(b)),
    }
}

/// Outcome of a data-block receive from what was received: token polls,
/// then on the token `len` data bytes and two checksum bytes.
pub open spec fn block_outcome(
    rx: Seq<u8>,
    len: usize,
    budget: u32,
    r: Result<Vec<u8>, SdCardError>,
) -> bool {
    match r {
        Ok(v) => exists|m: int|
            #![trigger rx.subrange(0, m)]
            1 <= m && poll_shape(rx.subrange(0, m), budget, |b: u8| not_idle(b)) && rx[m - 1]
                == DATA_START && rx.len() == m + len + 2 && rx.subrange(m, m + len) == v@
                && v@.len() == len,
        Err(SdCardError::Timeout) => poll_shape(rx, budget, |b: u8| not_idle(b)) && !poll_found(
            rx,
            |b: u8| not_idle(b),
        ),
        Err(SdCardError::InvalidResponse) => poll_shape(rx, budget, |b: u8| not_idle(b))
            && poll_found(rx, |b: u8| not_idle(b)) && rx.last() != DATA_START,
        Err(SdCardError::SpiError) => false,
    }
}

/// Whether a sector access is refused without bus traffic: the capacity is
/// known and the sector lies at or beyond it.
pub open spec fn refused(st: SdCardStatus, addr: u32) -> bool {
    st matches SdCardStatus::Ready(cap) && beyond_capacity(addr, cap)
}

/// Outcome of a sector read from what was received: the command exchange;
/// then on a zero reply the data block, on another reply `InvalidResponse`.
pub open spec fn read_outcome(rx: Seq<u8>, rt: Retries, r: Result<Vec<u8>, SdCardError>) -> bool {
    ||| exists|m: int|
        #![trigger rx.subrange(0, m)]
        6 <= m <= rx.len() && cmd_outcome(rx.subrange(0, m), rt.response_polls, Ok(rx[m - 1]))
            && (rx[m - 1] != 0 ==> r == Err::<Vec<u8>, SdCardError>(SdCardError::InvalidResponse)
            && m == rx.len()) && (rx[m - 1] == 0 ==> block_outcome(
            rx.subrange(m, rx.len() as int),
            SECTOR_SIZE,
            rt.token_polls,
            r,
        ))
    ||| cmd_outcome(rx, rt.response_polls, Err(SdCardError::Timeout)) && r == Err::<
        Vec<u8>,
        SdCardError,
    >(SdCardError::Timeout)
}

/// An idle byte: the card is ready for data.
pub open spec fn is_idle(b: u8) -> bool {
    b == IDLE
}

/// A data-response token that says "accepted".
pub open spec fn data_accepted(b: u8) -> bool {
    b & 0x1F == 0x05
}

/// A byte that ends the card's busy signal.
pub open spec fn not_busy(b: u8) -> bool {
    b != 0
}

/// The phases of a sector write in what was received, split at `m1` (end
/// of the command exchange), `m2` (end of the ready wait) and `m4` (end of
/// the wait for the data-response token, the first non-idle byte); between
/// `m2` and `m2 + 515` the token, data and checksum went out. The write
/// succeeds only if that one token says "accepted".
pub open spec fn write_phases(
    rx: Seq<u8>,
    rt: Retries,
    r: Result<(), SdCardError>,
    m1: int,
    m2: int,
    m4: int,
) -> bool {
    let c = rx[m1 - 1];
    let ready = rx.subrange(m1, m2);
    let acc = rx.subrange(m2 + 515, m4);
    let busy = rx.subrange(m4, rx.len() as int);
    &&& 6 <= m1 <= m2 <= rx.len()
    &&& cmd_outcome(rx.subrange(0, m1), rt.response_polls, Ok(c))
    &&& c != 0 ==> r == Err::<(), SdCardError>(SdCardError::InvalidResponse) && m1 == rx.len()
    &&& c == 0 ==> poll_shape(ready, rt.token_polls, |b: u8| is_idle(b))
    &&& c == 0 && !poll_found(ready, |b: u8| is_idle(b)) ==> r == Err::<(), SdCardError>(
        SdCardError::Timeout,
    ) && m2 == rx.len()
    &&& c == 0 && poll_found(ready, |b: u8| is_idle(b)) ==> {
        &&& m2 + 515 <= m4 <= rx.len()
        &&& poll_shape(acc, rt.accept_polls, |b: u8| not_idle(b))
        &&& !poll_found(acc, |b: u8| not_idle(b)) ==> r == Err::<(), SdCardError>(
            SdCardError::Timeout,
        ) && m4 == rx.len()
    }
    &&& c == 0 && poll_found(ready, |b: u8| is_idle(b)) && poll_found(acc, |b: u8| not_idle(b))
        ==> {
        &&& poll_shape(busy, rt.busy_polls, |b: u8| not_busy(b))
        &&& r == if !poll_found(busy, |b: u8| not_busy(b)) {
            Err(SdCardError::Timeout)
        } else if data_accepted(acc.last()) {
            Ok(())
        } else {
            Err(SdCardError::InvalidResponse)
        }
    }
}

/// Outcome of a sector write from what was received.
pub open spec fn write_outcome(rx: Seq<u8>, rt: Retries, r: Result<(), SdCardError>) -> bool {
    ||| exists|m1: int, m2: int, m4: int| #[trigger] write_phases(rx, rt, r, m1, m2, m4)
    ||| cmd_outcome(rx, rt.response_polls, Err(SdCardError::Timeout)) && r == Err::<
        (),
        SdCardError,
    >(SdCardError::Timeout)
}

/// Idle bytes after `pre` keep what `pre` starts with.
pub proof fn lemma_idle_keeps_prefix(s0: Seq<u8>, pre: Seq<u8>, t: Seq<u8>)
    requires
        pre.len() > s0.len(),
        pre.subrange(0, s0.len() as int) == s0,
        idle_after(pre, t),
    ensures
        t.len() > s0.len(),
        t.subrange(0, s0.len() as int) == s0,
        t[s0.len() as int] == pre[s0.len() as int],
{
    assert(t.subrange(0, s0.len() as int) =~= pre.subrange(0, s0.len() as int));
}

/// The phases of a capacity query in what was received: the command
/// exchange up to `m`, then on a zero reply the register's data block, whose
/// receive result is `block`.
pub open spec fn capacity_phases(
    rx: Seq<u8>,
    rt: Retries,
    r: Result<u64, SdCardError>,
    m: int,
    block: Result<Vec<u8>, SdCardError>,
) -> bool {
    &&& 6 <= m <= rx.len()
    &&& cmd_outcome(rx.subrange(0, m), rt.response_polls, Ok(rx[m - 1]))
    &&& rx[m - 1] != 0 ==> r == Err::<u64, SdCardError>(SdCardError::InvalidResponse) && m
        == rx.len()
    &&& rx[m - 1] == 0 ==> block_outcome(rx.subrange(m, rx.len() as int), 16, rt.token_polls, block)
        && r == match block {
        Ok(v) => csd_capacity(v@),
        Err(e) => Err(e),
    }
}

/// Outcome of a capacity query from what was received: a register with the
/// v2 layout gives its capacity; a receive error is passed on.
pub open spec fn capacity_outcome(rx: Seq<u8>, rt: Retries, r: Result<u64, SdCardError>) -> bool {
    ||| exists|m: int, block: Result<Vec<u8>, SdCardError>|
        #[trigger] capacity_phases(rx, rt, r, m, block)
    ||| cmd_outcome(rx, rt.response_polls, Err(SdCardError::Timeout)) && r == Err::<
        u64,
        SdCardError,
    >(SdCardError::Timeout)
}

/// Decodes the capacity from a geometry register.
pub fn capacity_from_csd(csd: &[u8]) -> (r: Result<u64, SdCardError>)
    requires
        csd@.len() >= 16,
    ensures
        r == csd_capacity(csd@),
        r matches Ok(c) ==> valid_capacity(c),
{
    if csd[0] >> 6u8 == 1 {
        let field: u64 = (csd[8] as u64) * 256 + (csd[9] as u64);
        let c: u64 = (field + 1) * CAPACITY_UNIT;
        Ok(c)
    } else {
        Err(SdCardError::InvalidResponse)
    }
}

/// A card on an `SdBus`, with the state its last initialisation left.
pub struct SpiSdCard<B: SdBus> {
    bus: B,
    status: SdCardStatus,
    retries: Retries,
    /// Every byte clocked out to the card so far.
    sent: Ghost<Seq<u8>>,
    /// Every byte clocked in from the card so far.
    received: Ghost<Seq<u8>>,
    /// Replies to the application-specific init command during the last
    /// initialisation, in order.
    op_cond: Ghost<Seq<u8>>,
    /// Chip-select changes, in order: `true` for select, `false` for
    /// release, each with the number of bytes sent before it.
    cs: Ghost<Seq<(bool, int)>>,
    /// Replies to the reset and interface-condition commands during the last
    /// initialisation, in order.
    handshake: Ghost<Seq<u8>>,
    /// Command exchanges of the last initialisation, in order.
    exchanges: Ghost<Seq<Exchange>>,
}

impl<B: SdBus> SpiSdCard<B> {
    /// The state of the card.
    pub closed spec fn card_status(&self) -> SdCardStatus {
        self.status
    }

    /// The attempt counts in force.
    pub closed spec fn retries(&self) -> Retries {
        self.retries
    }

    /// Every byte clocked out to the card so far.
    pub closed spec fn sent(&self) -> Seq<u8> {
        self.sent@
    }

    /// Every byte clocked in from the card so far.
    pub closed spec fn received(&self) -> Seq<u8> {
        self.received@
    }

    /// Replies to the application-specific init command during the last
    /// initialisation, in order.
    pub closed spec fn op_cond_replies(&self) -> Seq<u8> {
        self.op_cond@
    }

    /// Replies to the reset and interface-condition commands during the last
    /// initialisation, in order.
    pub closed spec fn handshake_replies(&self) -> Seq<u8> {
        self.handshake@
    }

    /// Command exchanges of the last initialisation, in order.
    pub closed spec fn init_exchanges(&self) -> Seq<Exchange> {
        self.exchanges@
    }

    /// Chip-select changes so far: `true` for select, `false` for release,
    /// each with the number of bytes sent before it.
    pub closed spec fn cs_log(&self) -> Seq<(bool, int)> {
        self.cs@
    }

    /// Bytes clocked out for which no byte came back: each is a bus fault.
    pub open spec fn gap(&self) -> int {
        self.sent().len() - self.received().len()
    }

    /// A bus fault happened between `self` and `later`.
    pub open spec fn faulted(&self, later: &Self) -> bool {
        later.gap() == self.gap() + 1
    }

    /// Both byte logs of `later` extend those of `self`.
    pub open spec fn logs_grow_to(&self, later: &Self) -> bool {
        &&& self.sent().len() <= later.sent().len()
        &&& later.sent().subrange(0, self.sent().len() as int) == self.sent()
        &&& self.received().len() <= later.received().len()
        &&& later.received().subrange(0, self.received().len() as int) == self.received()
        &&& later.gap() == self.gap() || later.gap() == self.gap() + 1
    }

    /// A sector read of `addr` that was not refused took `self` to `later`
    /// with result `r`: chip-select was taken and released, the read command
    /// went out first, and the result is what the card's replies decide.
    pub open spec fn read_done(&self, later: &Self, addr: u32, r: Result<Vec<u8>, SdCardError>) -> bool {
        &&& later.cs_log() == self.cs_log() + seq![
            (true, self.sent().len() as int),
            (false, later.sent().len() as int),
        ]
        &&& later.sent().len() > self.sent().len()
        &&& later.sent()[self.sent().len() as int] == CMD_READ_SINGLE
        &&& (r == Err::<Vec<u8>, SdCardError>(SdCardError::SpiError)) == self.faulted(later)
        &&& !self.faulted(later) ==> read_outcome(self.rx_since(later), self.retries(), r)
        &&& r matches Ok(v) ==> v@.len() == SECTOR_SIZE && idle_after(
            self.sent() + cmd_frame(CMD_READ_SINGLE, addr, 0x00),
            later.sent(),
        ) && ends_with_block(later.received(), v@)
    }

    /// A sector write of `data` to `addr` that was not refused took `self`
    /// to `later` with result `r`: chip-select was taken and released, the
    /// write command went out first, the result is what the card's replies
    /// decide, and on success exactly `data` was sent after the token.
    pub open spec fn write_done(&self, later: &Self, addr: u32, data: Seq<u8>, r: Result<(), SdCardError>) -> bool {
        &&& later.cs_log() == self.cs_log() + seq![
            (true, self.sent().len() as int),
            (false, later.sent().len() as int),
        ]
        &&& later.sent().len() > self.sent().len()
        &&& later.sent()[self.sent().len() as int] == CMD_WRITE_SINGLE
        &&& (r == Err::<(), SdCardError>(SdCardError::SpiError)) == self.faulted(later)
        &&& !self.faulted(later) ==> write_outcome(self.rx_since(later), self.retries(), r)
        &&& r is Ok ==> write_transcript(
            self.sent() + cmd_frame(CMD_WRITE_SINGLE, addr, 0x00),
            data,
            later.sent(),
        )
        &&& !self.faulted(later) ==> write_sent_shape(
            self.sent() + cmd_frame(CMD_WRITE_SINGLE, addr, 0x00),
            data,
            later.sent(),
        )
    }

    /// An initialisation took `self` to `later` with result `r`: chip-select
    /// was taken before its first byte and released after its last; the
    /// logged command exchanges stand in the byte logs in the order reset,
    /// interface condition, then prefix and init-command pairs, each reply
    /// decided by its received bytes; and those replies decide the result.
    pub open spec fn init_done(&self, later: &Self, r: Result<u64, SdCardError>) -> bool {
        &&& later.retries() == self.retries()
        &&& later.cs_log() == self.cs_log() + seq![
            (true, self.sent().len() as int),
            (false, later.sent().len() as int),
        ]
        &&& init_retry_outcome(later.op_cond_replies(), self.retries().init_attempts, r)
        &&& handshake_outcome(later.handshake_replies(), later.op_cond_replies(), r)
        &&& self.logs_grow_to(later)
        &&& (r == Err::<u64, SdCardError>(SdCardError::SpiError)) == self.faulted(later)
        &&& init_progress(
            later.handshake_replies(),
            later.op_cond_replies(),
            later.init_exchanges().len() as int,
            self.faulted(later),
            self.retries().init_attempts,
            r,
        )
        &&& exchanges_match(
            later.init_exchanges(),
            later.sent(),
            later.received(),
            self.retries().response_polls,
            later.handshake_replies(),
            later.op_cond_replies(),
        )
        &&& later.handshake_replies().len() >= 1 ==> has_prefix(
            later.sent(),
            self.sent() + init_head(),
        )
        &&& ready_then_capacity(
            later.op_cond_replies(),
            self.received(),
            later.received(),
            self.faulted(later),
            self.retries(),
            r,
        )
        &&& later.card_status() == (match r {
            Ok(c) => SdCardStatus::Ready(c),
            Err(_) => SdCardStatus::Failed,
        })
        &&& r matches Ok(c) ==> valid_capacity(c) && capacity_received(later.received(), c)
    }

    /// What was received between `self` and `later`.
    pub open spec fn rx_since(&self, later: &Self) -> Seq<u8> {
        later.received().subrange(self.received().len() as int, later.received().len() as int)
    }

    /// A card on `bus`, not yet initialised, with the standard attempt counts.
    pub fn new(bus: B) -> (r: Self)
        ensures
            r.card_status() == SdCardStatus::Init,
            r.retries() == standard_retries(),
            r.sent() == Seq::<u8>::empty(),
            r.received() == Seq::<u8>::empty(),
            r.op_cond_replies() == Seq::<u8>::empty(),
            r.handshake_replies() == Seq::<u8>::empty(),
            r.cs_log() == Seq::<(bool, int)>::empty(),
    {
        SpiSdCard {
            bus,
            status: SdCardStatus::Init,
            retries: Retries::standard(),
            sent: Ghost(Seq::empty()),
            received: Ghost(Seq::empty()),
            op_cond: Ghost(Seq::empty()),
            cs: Ghost(Seq::empty()),
            handshake: Ghost(Seq::empty()),
            exchanges: Ghost(Seq::empty()),
        }
    }

    /// A card on `bus`, not yet initialised, with the given attempt counts.
    pub fn with_retries(bus: B, retries: Retries) -> (r: Self)
        ensures
            r.card_status() == SdCardStatus::Init,
            r.retries() == retries,
            r.sent() == Seq::<u8>::empty(),
            r.received() == Seq::<u8>::empty(),
            r.op_cond_replies() == Seq::<u8>::empty(),
            r.handshake_replies() == Seq::<u8>::empty(),
            r.cs_log() == Seq::<(bool, int)>::empty(),
    {
        SpiSdCard {
            bus,
            status: SdCardStatus::Init,
            retries,
            sent: Ghost(Seq::empty()),
            received: Ghost(Seq::empty()),
            op_cond: Ghost(Seq::empty()),
            cs: Ghost(Seq::empty()),
            handshake: Ghost(Seq::empty()),
            exchanges: Ghost(Seq::empty()),
        }
    }

    /// The state of the card; no bus traffic.
    pub fn status(&self) -> (r: SdCardStatus)
        ensures
            r == self.card_status(),
    {
        self.status
    }

    /// Exchanges one byte with the card.
    pub fn txrx(&mut self, w: u8) -> (r: Result<u8, SdCardError>)
        ensures
            final(self).card_status() == old(self).card_status(),
            final(self).retries() == old(self).retries(),
            final(self).op_cond_replies() == old(self).op_cond_replies(),
            final(self).handshake_replies() == old(self).handshake_replies(),
            final(self).init_exchanges() == old(self).init_exchanges(),
            final(self).sent() == old(self).sent().push(w),
            final(self).cs_log() == old(self).cs_log(),
            r is Err ==> r == Err::<u8, SdCardError>(SdCardError::SpiError),
            r matches Ok(b) ==> final(self).received() == old(self).received().push(b),
            r is Err ==> final(self).received() == old(self).received(),
    {
        self.sent = Ghost(self.sent@.push(w));
        match self.bus.transfer(w) {
            Ok(b) => {
                self.received = Ghost(self.received@.push(b));
                Ok(b)
            },
            Err(_) => Err(SdCardError::SpiError),
        }
    }

    /// Sends a command frame and polls for its one-byte response: the first
    /// polled byte whose top bit is clear. Polls used up give `Timeout`.
    pub fn send_cmd(&mut self, cmd: u8, crc: u8, arg: u32) -> (r: Result<u8, SdCardError>)
        ensures
            final(self).card_status() == old(self).card_status(),
            final(self).retries() == old(self).retries(),
            final(self).op_cond_replies() == old(self).op_cond_replies(),
            final(self).handshake_replies() == old(self).handshake_replies(),
            final(self).init_exchanges() == old(self).init_exchanges(),
            final(self).cs_log() == old(self).cs_log(),
            old(self).logs_grow_to(final(self)),
            final(self).sent().len() > old(self).sent().len(),
            final(self).sent()[old(self).sent().len() as int] == cmd,
            (r == Err::<u8, SdCardError>(SdCardError::SpiError)) == old(self).faulted(final(self)),
            !old(self).faulted(final(self)) ==> cmd_outcome(
                old(self).rx_since(final(self)),
                old(self).retries().response_polls,
                r,
            ) && final(self).sent() == old(self).sent() + cmd_frame(cmd, arg, crc) + idle_bytes(
                old(self).rx_since(final(self)).len() - 6,
            ),
    {
        let ghost s0 = self.sent@;
        let ghost r0 = self.received@;
        let bytes: [u8; 6] = [
            cmd,
            (arg >> 24u32) as u8,
            (arg >> 16u32) as u8,
            (arg >> 8u32) as u8,
            arg as u8,
            crc,
        ];
        let mut n: usize = 0;
        while n < 6
            invariant
                n <= 6,
                bytes@ == cmd_frame(cmd, arg, crc),
                self.status == old(self).status,
                self.retries == old(self).retries,
                self.op_cond == old(self).op_cond,
                self.handshake == old(self).handshake,
                self.exchanges == old(self).exchanges,
                self.cs == old(self).cs,
                self.sent@ == s0 + bytes@.subrange(0, n as int),
                self.received@.len() == r0.len() + n,
                self.received@.subrange(0, r0.len() as int) == r0,
                s0 == old(self).sent@,
                r0 == old(self).received@,
            decreases 6 - n,
        {
            match self.txrx(bytes[n]) {
                Ok(_) => {},
                Err(e) => {
                    assert(self.sent@ =~= s0 + bytes@.subrange(0, n + 1));
                    assert(self.sent@[s0.len() as int] == cmd);
                    assert(self.sent@.subrange(0, s0.len() as int) =~= s0);
                    assert(self.received@.subrange(0, r0.len() as int) =~= r0);
                    return Err(e);
                },
            }
            assert(self.sent@ =~= s0 + bytes@.subrange(0, n + 1));
            assert(self.received@.subrange(0, r0.len() as int) =~= r0);
            n = n + 1;
        }
        assert(bytes@.subrange(0, 6) =~= bytes@);
        let ghost s1 = self.sent@;
        let ghost r1 = self.received@;
        let polls = self.retries.response_polls;
        let ghost mut p: Seq<u8> = Seq::empty();
        let mut i: u32 = 0;
        while i < polls
            invariant
                i <= polls,
                p.len() == i,
                forall|j: int| 0 <= j < p.len() ==> p[j] >= 0x80,
                polls == self.retries.response_polls,
                self.status == old(self).status,
                self.retries == old(self).retries,
                self.op_cond == old(self).op_cond,
                self.handshake == old(self).handshake,
                self.exchanges == old(self).exchanges,
                self.cs == old(self).cs,
                self.sent@ == s1 + idle_bytes(i as int),
                self.received@ == r1 + p,
                s1 == s0 + cmd_frame(cmd, arg, crc),
                s1[s0.len() as int] == cmd,
                r1.len() == r0.len() + 6,
                r1.subrange(0, r0.len() as int) == r0,
                s0 == old(self).sent@,
                r0 == old(self).received@,
            decreases polls - i,
        {
            let tmp = match self.txrx(0xFF) {
                Ok(t) => t,
                Err(e) => {
                    assert(self.received@.subrange(0, r0.len() as int) =~= r0);
                    assert(self.sent@.subrange(0, s0.len() as int) =~= s0);
                    assert(self.received@.subrange(0, r0.len() as int) =~= r0);
                    return Err(e);
                },
            };
            assert(self.sent@ =~= s1 + idle_bytes(i + 1));
            proof {
                p = p.push(tmp);
            }
            assert(self.received@ =~= r1 + p);
            assert(self.received@.subrange(0, r0.len() as int) =~= r0);
            if tmp & 0x80 == 0 {
                assert(tmp < 0x80) by (bit_vector)
                    requires
                        tmp & 0x80 == 0,
                ;
                assert(old(self).rx_since(self).subrange(6, p.len() as int + 6) =~= p);
                assert(self.sent@.subrange(0, s0.len() as int) =~= s0);
                assert(self.received@.subrange(0, r0.len() as int) =~= r0);
                return Ok(tmp);
            }
            assert(tmp >= 0x80) by (bit_vector)
                requires
                    tmp & 0x80 != 0,
            ;
            i = i + 1;
        }
        assert(old(self).rx_since(self).subrange(6, p.len() as int + 6) =~= p);
        assert(self.sent@.subrange(0, s0.len() as int) =~= s0);
        assert(self.received@.subrange(0, r0.len() as int) =~= r0);
        Err(SdCardError::Timeout)
    }

    /// Waits for a data-start token and receives a data block of `len`
    /// bytes and its two checksum bytes, which are not checked. Polls used up
    /// give `Timeout`; another first byte than the token gives
    /// `InvalidResponse`, with nothing clocked after it.
    pub fn rx_data_block(&mut self, len: usize) -> (r: Result<Vec<u8>, SdCardError>)
        ensures
            final(self).card_status() == old(self).card_status(),
            final(self).retries() == old(self).retries(),
            final(self).op_cond_replies() == old(self).op_cond_replies(),
            final(self).handshake_replies() == old(self).handshake_replies(),
            final(self).init_exchanges() == old(self).init_exchanges(),
            final(self).cs_log() == old(self).cs_log(),
            old(self).logs_grow_to(final(self)),
            idle_after(old(self).sent(), final(self).sent()),
            (r == Err::<Vec<u8>, SdCardError>(SdCardError::SpiError)) == old(self).faulted(
                final(self),
            ),
            !old(self).faulted(final(self)) ==> block_outcome(
                old(self).rx_since(final(self)),
                len,
                old(self).retries().token_polls,
                r,
            ),
            r matches Ok(v) ==> v@.len() == len && block_received(
                old(self).received(),
                v@,
                final(self).received(),
            ),
    {
        let ghost s0 = self.sent@;
        let ghost r0 = self.received@;
        let mut tmp: u8 = 0xFF;
        self.bus.delay(10000);
        let polls = self.retries.token_polls;
        let ghost mut p: Seq<u8> = Seq::empty();
        let mut i: u32 = 0;
        while i < polls && tmp == 0xFF
            invariant
                i <= polls,
                p.len() == i,
                forall|j: int| 0 <= j < p.len() - 1 ==> p[j] == 0xFF,
                i >= 1 ==> p.last() == tmp,
                i == 0 ==> tmp == 0xFF,
                polls == self.retries.token_polls,
                self.status == old(self).status,
                self.retries == old(self).retries,
                self.op_cond == old(self).op_cond,
                self.handshake == old(self).handshake,
                self.exchanges == old(self).exchanges,
                self.cs == old(self).cs,
                s0 == old(self).sent@,
                r0 == old(self).received@,
                idle_after(s0, self.sent@),
                self.sent@.len() == s0.len() + i,
                self.received@ == r0 + p,
            decreases polls - i,
        {
            tmp = match self.send_idle() {
                Ok(t) => t,
                Err(e) => {
                    assert(self.sent@.subrange(0, s0.len() as int) =~= s0);
                    assert(self.received@.subrange(0, r0.len() as int) =~= r0);
                    return Err(e);
                },
            };
            proof {
                p = p.push(tmp);
            }
            assert(self.received@ =~= r0 + p);
            if tmp == 0xFF {
                self.bus.delay(10000);
            }
            i = i + 1;
        }
        assert(old(self).rx_since(self) =~= p);
        assert(p == idle_bytes(i as int) || (i >= 1 && p == idle_bytes(i - 1) + seq![tmp])) by {
            if tmp == 0xFF {
                assert(p =~= idle_bytes(i as int));
            } else {
                assert(p =~= idle_bytes(i - 1) + seq![tmp]);
            }
        }
        if tmp == 0xFF {
            assert(self.sent@.subrange(0, s0.len() as int) =~= s0);
            assert(self.received@.subrange(0, r0.len() as int) =~= r0);
            return Err(SdCardError::Timeout);
        }
        if tmp != DATA_START {
            assert(self.sent@.subrange(0, s0.len() as int) =~= s0);
            assert(self.received@.subrange(0, r0.len() as int) =~= r0);
            return Err(SdCardError::InvalidResponse);
        }
        let ghost k = i - 1;
        let ghost head = self.received@;
        let ghost m = p.len();
        let mut buf: Vec<u8> = Vec::new();
        let mut j: usize = 0;
        assert(head + buf@ =~= head);
        while j < len
            invariant
                j <= len,
                buf@.len() == j,
                self.status == old(self).status,
                self.retries == old(self).retries,
                self.op_cond == old(self).op_cond,
                self.handshake == old(self).handshake,
                self.exchanges == old(self).exchanges,
                self.cs == old(self).cs,
                s0 == old(self).sent@,
                r0 == old(self).received@,
                idle_after(s0, self.sent@),
                self.sent@.len() - self.received@.len() == s0.len() - r0.len(),
                self.received@ == head + buf@,
                head == r0 + p,
            decreases len - j,
        {
            let b = match self.send_idle() {
                Ok(b) => b,
                Err(e) => {
                    assert(self.sent@.subrange(0, s0.len() as int) =~= s0);
                    assert(self.received@.subrange(0, r0.len() as int) =~= r0);
                    return Err(e);
                },
            };
            buf.push(b);
            assert(self.received@ =~= head + buf@);
            j = j + 1;
        }
        let ghost body = self.received@;
        if let Err(e) = self.send_idle() {
            assert(self.received@.subrange(0, r0.len() as int) =~= r0);
            assert(self.sent@.subrange(0, s0.len() as int) =~= s0);
            assert(self.received@.subrange(0, r0.len() as int) =~= r0);
            return Err(e);
        }
        if let Err(e) = self.send_idle() {
            assert(self.received@.subrange(0, r0.len() as int) =~= r0);
            assert(self.sent@.subrange(0, s0.len() as int) =~= s0);
            assert(self.received@.subrange(0, r0.len() as int) =~= r0);
            return Err(e);
        }
        proof {
            assert(self.received@.subrange(0, body.len() as int) =~= body);
            assert(body == r0 + idle_bytes(k) + seq![DATA_START] + buf@);
            let rx = old(self).rx_since(self);
            assert(rx.subrange(0, m as int) =~= p);
            assert(rx.subrange(m as int, m + len) =~= buf@);
            assert(self.received@.subrange(0, r0.len() as int) =~= r0);
        }
        assert(self.sent@.subrange(0, s0.len() as int) =~= s0);
        Ok(buf)
    }

    /// Reads the geometry register and derives the capacity from it.
    pub fn get_capacity(&mut self) -> (r: Result<u64, SdCardError>)
        ensures
            final(self).card_status() == old(self).card_status(),
            final(self).retries() == old(self).retries(),
            final(self).op_cond_replies() == old(self).op_cond_replies(),
            final(self).handshake_replies() == old(self).handshake_replies(),
            final(self).init_exchanges() == old(self).init_exchanges(),
            final(self).cs_log() == old(self).cs_log(),
            old(self).logs_grow_to(final(self)),
            final(self).sent().len() > old(self).sent().len(),
            final(self).sent()[old(self).sent().len() as int] == CMD_SEND_CSD,
            (r == Err::<u64, SdCardError>(SdCardError::SpiError)) == old(self).faulted(final(self)),
            !old(self).faulted(final(self)) ==> capacity_outcome(
                old(self).rx_since(final(self)),
                old(self).retries(),
                r,
            ),
            r matches Ok(c) ==> valid_capacity(c) && capacity_received(final(self).received(), c),
    {
        let ghost r0 = self.received@;
        let res = match self.send_cmd(CMD_SEND_CSD, 0x00, 0x01) {
            Ok(v) => v,
            Err(e) => {
                return Err(e);
            },
        };
        let ghost rx1 = self.received@.subrange(r0.len() as int, self.received@.len() as int);
        let ghost m = rx1.len();
        if res != 0 {
            assert(old(self).rx_since(self) =~= rx1);
            assert(rx1.subrange(0, m as int) =~= rx1);
            assert(rx1.subrange(6, m as int).last() == rx1[m - 1]);
            assert(capacity_phases(
                rx1,
                self.retries,
                Err(SdCardError::InvalidResponse),
                m as int,
                Err(SdCardError::InvalidResponse),
            ));
            return Err(SdCardError::InvalidResponse);
        }
        let ghost r_mid = self.received@;
        let ghost s_mid = self.sent@;
        let ghost s0 = old(self).sent@;
        let csd = self.rx_data_block(16);
        proof {
            assert(self.sent@.subrange(0, s0.len() as int) =~= s_mid.subrange(0, s0.len() as int));
            assert(self.received@.subrange(0, r0.len() as int) =~= r_mid.subrange(0, r0.len() as int));
            assert(self.sent@[s0.len() as int] == s_mid[s0.len() as int]);
            let rx = old(self).rx_since(self);
            let rx2 = self.received@.subrange(r_mid.len() as int, self.received@.len() as int);
            assert(rx.subrange(0, m as int) =~= rx1);
            assert(rx.subrange(m as int, rx.len() as int) =~= rx2);
        }
        match csd {
            Ok(csd) => {
                proof {
                    lemma_block_received_ends(r_mid, csd@, self.received@);
                }
                let c = capacity_from_csd(csd.as_slice());
                proof {
                    let rx = old(self).rx_since(self);
                    assert(capacity_phases(rx, self.retries, c, m as int, Ok(csd)));
                }
                c
            },
            Err(e) => {
                proof {
                    let rx = old(self).rx_since(self);
                    if e != SdCardError::SpiError {
                        assert(capacity_phases(rx, self.retries, Err(e), m as int, Err(e)));
                    }
                }
                Err(e)
            },
        }
    }

    /// Reads sector `addr`: 512 bytes after a data-start token, then two
    /// checksum bytes that are not checked. A sector beyond a known capacity
    /// is refused without bus traffic.
    pub fn read_sector(&mut self, addr: u32) -> (r: Result<Vec<u8>, SdCardError>)
        ensures
            final(self).card_status() == old(self).card_status(),
            final(self).retries() == old(self).retries(),
            final(self).op_cond_replies() == old(self).op_cond_replies(),
            final(self).handshake_replies() == old(self).handshake_replies(),
            final(self).init_exchanges() == old(self).init_exchanges(),
            old(self).logs_grow_to(final(self)),
            refused(old(self).card_status(), addr) ==> r == Err::<Vec<u8>, SdCardError>(
                SdCardError::InvalidResponse,
            ) && final(self).sent() == old(self).sent() && final(self).received() == old(
                self,
            ).received() && final(self).cs_log() == old(self).cs_log(),
            !refused(old(self).card_status(), addr) ==> old(self).read_done(final(self), addr, r),
            r matches Ok(v) ==> v@.len() == SECTOR_SIZE && idle_after(
                old(self).sent() + cmd_frame(CMD_READ_SINGLE, addr, 0x00),
                final(self).sent(),
            ) && ends_with_block(final(self).received(), v@),
    {
        if let SdCardStatus::Ready(cap) = self.status {
            if (addr as u64) * (SECTOR_SIZE as u64) >= cap {
                assert(self.sent@.subrange(0, self.sent@.len() as int) =~= self.sent@);
                assert(self.received@.subrange(0, self.received@.len() as int) =~= self.received@);
                return Err(SdCardError::InvalidResponse);
            }
        }
        self.bus.select();
        self.cs = Ghost(self.cs@.push((true, self.sent@.len() as int)));
        self.bus.delay(10000);
        let r = self.read_sector_selected(addr);
        self.bus.deselect();
        self.cs = Ghost(self.cs@.push((false, self.sent@.len() as int)));
        self.bus.delay(10000);
        assert(self.cs@ =~= old(self).cs@ + seq![
            (true, old(self).sent@.len() as int),
            (false, self.sent@.len() as int),
        ]);
        r
    }

    fn read_sector_selected(&mut self, addr: u32) -> (r: Result<Vec<u8>, SdCardError>)
        ensures
            final(self).card_status() == old(self).card_status(),
            final(self).retries() == old(self).retries(),
            final(self).op_cond_replies() == old(self).op_cond_replies(),
            final(self).handshake_replies() == old(self).handshake_replies(),
            final(self).init_exchanges() == old(self).init_exchanges(),
            final(self).cs_log() == old(self).cs_log(),
            old(self).logs_grow_to(final(self)),
            final(self).sent().len() > old(self).sent().len(),
            final(self).sent()[old(self).sent().len() as int] == CMD_READ_SINGLE,
            (r == Err::<Vec<u8>, SdCardError>(SdCardError::SpiError)) == old(self).faulted(
                final(self),
            ),
            !old(self).faulted(final(self)) ==> read_outcome(
                old(self).rx_since(final(self)),
                old(self).retries(),
                r,
            ),
            r matches Ok(v) ==> v@.len() == SECTOR_SIZE && idle_after(
                old(self).sent() + cmd_frame(CMD_READ_SINGLE, addr, 0x00),
                final(self).sent(),
            ) && ends_with_block(final(self).received(), v@),
    {
        let ghost pre = self.sent@ + cmd_frame(CMD_READ_SINGLE, addr, 0x00);
        let ghost s0 = self.sent@;
        let ghost r0 = self.received@;
        let res = match self.send_cmd(CMD_READ_SINGLE, 0x00, addr) {
            Ok(v) => v,
            Err(e) => {
                return Err(e);
            },
        };
        let ghost rx1 = self.received@.subrange(r0.len() as int, self.received@.len() as int);
        let ghost m = rx1.len();
        if res != 0 {
            assert(old(self).rx_since(self) =~= rx1);
            assert(rx1.subrange(0, m as int) =~= rx1);
            return Err(SdCardError::InvalidResponse);
        }
        let ghost mid = self.sent@;
        assert(idle_after(pre, mid));
        let ghost r_mid = self.received@;
        let ghost s_mid = self.sent@;
        let v = self.rx_data_block(SECTOR_SIZE);
        proof {
            assert(self.sent@.subrange(0, s0.len() as int) =~= s_mid.subrange(0, s0.len() as int));
            assert(self.received@.subrange(0, r0.len() as int) =~= r_mid.subrange(0, r0.len() as int));
            assert(self.sent@[s0.len() as int] == s_mid[s0.len() as int]);
            let rx = old(self).rx_since(self);
            let rx2 = self.received@.subrange(r_mid.len() as int, self.received@.len() as int);
            assert(rx.subrange(0, m as int) =~= rx1);
            assert(rx.subrange(m as int, rx.len() as int) =~= rx2);
        }
        match v {
            Ok(v) => {
                proof {
                    lemma_idle_after_trans(pre, mid, self.sent@);
                    lemma_block_received_ends(r_mid, v@, self.received@);
                }
                Ok(v)
            },
            Err(e) => Err(e),
        }
    }

    /// Writes `buf` to sector `addr`: waits for the card to be ready, sends a
    /// data-start token, the 512 bytes and two dummy checksum bytes, requires
    /// the "accepted" data response, then waits while the card is busy. A
    /// sector beyond a known capacity is refused without bus traffic.
    pub fn write_sector(&mut self, addr: u32, buf: &[u8]) -> (r: Result<(), SdCardError>)
        requires
            buf@.len() == SECTOR_SIZE,
        ensures
            final(self).card_status() == old(self).card_status(),
            final(self).retries() == old(self).retries(),
            final(self).op_cond_replies() == old(self).op_cond_replies(),
            final(self).handshake_replies() == old(self).handshake_replies(),
            final(self).init_exchanges() == old(self).init_exchanges(),
            old(self).card_status() matches SdCardStatus::Ready(cap) && beyond_capacity(addr, cap)
                ==> r == Err::<(), SdCardError>(SdCardError::InvalidResponse)
                && final(self).sent() == old(self).sent(),
            r is Ok ==> write_transcript(
                old(self).sent() + cmd_frame(CMD_WRITE_SINGLE, addr, 0x00),
                buf@,
                final(self).sent(),
            ),
            final(self).op_cond_replies() == old(self).op_cond_replies(),
            final(self).handshake_replies() == old(self).handshake_replies(),
            final(self).init_exchanges() == old(self).init_exchanges(),
            old(self).logs_grow_to(final(self)),
            refused(old(self).card_status(), addr) ==> final(self).received() == old(
                self,
            ).received() && final(self).cs_log() == old(self).cs_log(),
            !refused(old(self).card_status(), addr) ==> old(self).write_done(
                final(self),
                addr,
                buf@,
                r,
            ),
    {
        if let SdCardStatus::Ready(cap) = self.status {
            if (addr as u64) * (SECTOR_SIZE as u64) >= cap {
                assert(self.sent@.subrange(0, self.sent@.len() as int) =~= self.sent@);
                assert(self.received@.subrange(0, self.received@.len() as int) =~= self.received@);
                return Err(SdCardError::InvalidResponse);
            }
        }
        self.bus.select();
        self.cs = Ghost(self.cs@.push((true, self.sent@.len() as int)));
        self.bus.delay(10000);
        let r = self.write_sector_selected(addr, buf);
        self.bus.deselect();
        self.cs = Ghost(self.cs@.push((false, self.sent@.len() as int)));
        self.bus.delay(10000);
        assert(self.cs@ =~= old(self).cs@ + seq![
            (true, old(self).sent@.len() as int),
            (false, self.sent@.len() as int),
        ]);
        r
    }

    #[verifier::spinoff_prover]
    #[verifier::rlimit(100)]
    fn write_sector_selected(&mut self, addr: u32, buf: &[u8]) -> (r: Result<(), SdCardError>)
        requires
            buf@.len() == SECTOR_SIZE,
        ensures
            final(self).card_status() == old(self).card_status(),
            final(self).retries() == old(self).retries(),
            final(self).op_cond_replies() == old(self).op_cond_replies(),
            final(self).handshake_replies() == old(self).handshake_replies(),
            final(self).init_exchanges() == old(self).init_exchanges(),
            final(self).cs_log() == old(self).cs_log(),
            old(self).logs_grow_to(final(self)),
            final(self).sent().len() > old(self).sent().len(),
            final(self).sent()[old(self).sent().len() as int] == CMD_WRITE_SINGLE,
            (r == Err::<(), SdCardError>(SdCardError::SpiError)) == old(self).faulted(final(self)),
            !old(self).faulted(final(self)) ==> write_outcome(
                old(self).rx_since(final(self)),
                old(self).retries(),
                r,
            ),
            r is Ok ==> write_transcript(
                old(self).sent() + cmd_frame(CMD_WRITE_SINGLE, addr, 0x00),
                buf@,
                final(self).sent(),
            ),
            !old(self).faulted(final(self)) ==> write_sent_shape(
                old(self).sent() + cmd_frame(CMD_WRITE_SINGLE, addr, 0x00),
                buf@,
                final(self).sent(),
            ),
    {
        let ghost pre = self.sent@ + cmd_frame(CMD_WRITE_SINGLE, addr, 0x00);
        let ghost s0 = self.sent@;
        let ghost r0 = self.received@;
        assert(pre.subrange(0, s0.len() as int) =~= s0);
        assert(pre[s0.len() as int] == CMD_WRITE_SINGLE);
        let res = match self.send_cmd(CMD_WRITE_SINGLE, 0x00, addr) {
            Ok(v) => v,
            Err(e) => {
                return Err(e);
            },
        };
        let ghost mut acc: Seq<u8> = self.received@.subrange(r0.len() as int, self.received@.len() as int);
        let ghost m1 = acc.len() as int;
        let ghost acc1 = acc;
        assert(acc1.subrange(6, m1).last() == acc1[m1 - 1]);
        assert(acc1[m1 - 1] == res);
        proof {
            lemma_idle_keeps_prefix(s0, pre, self.sent@);
        }
        let ghost g0 = self.sent@.len() - self.received@.len();
        assert(g0 == s0.len() - r0.len());
        assert(self.received@ =~= r0 + acc);
        if res != 0 {
            assert(acc.subrange(0, m1) =~= acc);
            assert(old(self).rx_since(self) =~= acc);
            assert(write_phases(acc, self.retries, Err(SdCardError::InvalidResponse), m1, m1, m1));
            return Err(SdCardError::InvalidResponse);
        }
        assert(idle_after(pre, self.sent@));
        let polls = self.retries.token_polls;
        let mut ready = false;
        let ghost mut p: Seq<u8> = Seq::empty();
        let mut i: u32 = 0;
        while i < polls && !ready
            invariant
                i <= polls,
                p.len() == i,
                forall|j: int| 0 <= j < p.len() - 1 ==> p[j] != IDLE,
                i >= 1 ==> (ready == (p.last() == IDLE)),
                i == 0 ==> !ready,
                polls == self.retries.token_polls,
                self.status == old(self).status,
                self.retries == old(self).retries,
                self.op_cond == old(self).op_cond,
                self.handshake == old(self).handshake,
                self.exchanges == old(self).exchanges,
                self.cs == old(self).cs,
                s0 == old(self).sent@,
                r0 == old(self).received@,
                g0 == s0.len() - r0.len(),
                idle_after(pre, self.sent@),
                self.received@ == r0 + acc + p,
                self.sent@.len() - self.received@.len() == g0,
                pre.len() == s0.len() + 6,
                pre.subrange(0, s0.len() as int) == s0,
                pre[s0.len() as int] == CMD_WRITE_SINGLE,
            decreases polls - i,
        {
            let tmp = match self.send_idle() {
                Ok(t) => t,
                Err(e) => {
                    proof { lemma_idle_keeps_prefix(s0, pre, self.sent@); }
                    assert(self.received@.subrange(0, r0.len() as int) =~= r0);
                    return Err(e);
                },
            };
            proof {
                p = p.push(tmp);
            }
            assert(self.received@ =~= r0 + acc + p);
            if tmp == IDLE {
                ready = true;
            }
            i = i + 1;
        }
        proof {
            acc = acc + p;
        }
        let ghost m2 = acc.len() as int;
        assert(acc.subrange(m1, m2) =~= p);
        assert(acc.subrange(0, m1) =~= acc1);
        assert(acc[m1 - 1] == acc1[m1 - 1]);
        if !ready {
            proof { lemma_idle_keeps_prefix(s0, pre, self.sent@); }
            assert(self.received@.subrange(0, r0.len() as int) =~= r0);
            assert(old(self).rx_since(self) =~= acc);
            assert(write_phases(acc, self.retries, Err(SdCardError::Timeout), m1, m2, m2));
            return Err(SdCardError::Timeout);
        }
        self.bus.delay(10000);
        let ghost i0 = self.sent@.len() - pre.len();
        let ghost a = self.sent@;
        assert(a == pre + idle_bytes(i0));
        let ghost rd = self.received@;
        proof {
            lemma_idle_keeps_prefix(s0, pre, a);
        }
        let ghost mut d: Seq<u8> = Seq::empty();
        match self.txrx(DATA_START) {
            Ok(x) => {
                proof {
                    d = seq![x];
                }
            },
            Err(e) => {
                assert(self.sent@.subrange(0, s0.len() as int) =~= a.subrange(0, s0.len() as int));
                assert(self.sent@[s0.len() as int] == a[s0.len() as int]);
                assert(self.received@.subrange(0, r0.len() as int) =~= r0);
                return Err(e);
            },
        }
        assert(self.sent@ =~= a + seq![DATA_START] + buf@.subrange(0, 0));
        assert(self.received@ =~= rd + d);
        assert(a.subrange(0, s0.len() as int) == s0);
        assert(a[s0.len() as int] == CMD_WRITE_SINGLE);
        let mut j: usize = 0;
        while j < SECTOR_SIZE
            invariant
                j <= SECTOR_SIZE,
                buf@.len() == SECTOR_SIZE,
                self.status == old(self).status,
                self.retries == old(self).retries,
                self.op_cond == old(self).op_cond,
                self.handshake == old(self).handshake,
                self.exchanges == old(self).exchanges,
                self.cs == old(self).cs,
                s0 == old(self).sent@,
                r0 == old(self).received@,
                g0 == s0.len() - r0.len(),
                self.sent@ == a + seq![DATA_START] + buf@.subrange(0, j as int),
                d.len() == 1 + j,
                self.received@ == rd + d,
                self.sent@.len() - self.received@.len() == g0,
                a.len() > s0.len(),
                a.subrange(0, s0.len() as int) == s0,
                a[s0.len() as int] == CMD_WRITE_SINGLE,
                rd == r0 + acc,
            decreases SECTOR_SIZE - j,
        {
            match self.txrx(buf[j]) {
                Ok(x) => {
                    proof {
                        d = d.push(x);
                    }
                },
                Err(e) => {
                    assert(self.sent@.subrange(0, s0.len() as int) =~= a.subrange(0, s0.len() as int));
                    assert(self.sent@[s0.len() as int] == a[s0.len() as int]);
                    assert(self.received@.subrange(0, r0.len() as int) =~= r0);
                    return Err(e);
                },
            }
            assert(self.sent@ =~= a + seq![DATA_START] + buf@.subrange(0, j + 1));
            assert(self.received@ =~= rd + d);
            j = j + 1;
        }
        let ghost mid = self.sent@;
        assert(mid =~= a + seq![DATA_START] + buf@);
        assert(mid.subrange(0, s0.len() as int) =~= a.subrange(0, s0.len() as int));
        assert(mid[s0.len() as int] == a[s0.len() as int]);
        assert(self.received@ =~= rd + d);
        assert(idle_after(mid, mid)) by {
            assert(mid =~= mid + idle_bytes(0));
        }
        match self.send_idle() {
            Ok(x) => {
                proof {
                    d = d.push(x);
                }
            },
            Err(e) => {
                proof { lemma_idle_keeps_prefix(s0, mid, self.sent@); }
                assert(self.received@.subrange(0, r0.len() as int) =~= r0);
                return Err(e);
            },
        }
        assert(self.received@ =~= rd + d);
        match self.send_idle() {
            Ok(x) => {
                proof {
                    d = d.push(x);
                }
            },
            Err(e) => {
                proof { lemma_idle_keeps_prefix(s0, mid, self.sent@); }
                assert(self.received@.subrange(0, r0.len() as int) =~= r0);
                return Err(e);
            },
        }
        assert(self.received@ =~= rd + d);
        proof {
            acc = acc + d;
            assert(self.received@ =~= r0 + acc);
        }
        let ghost m3 = acc.len() as int;
        assert(m3 == m2 + 515);
        assert(acc.subrange(m1, m2) =~= p);
        assert(acc.subrange(0, m1) =~= acc1);
        let polls = self.retries.accept_polls;
        let mut token: u8 = IDLE;
        let ghost mut q: Seq<u8> = Seq::empty();
        let mut i: u32 = 0;
        while i < polls && token == IDLE
            invariant
                i <= polls,
                q.len() == i,
                forall|j: int| 0 <= j < q.len() - 1 ==> q[j] == IDLE,
                i >= 1 ==> token == q.last(),
                i == 0 ==> token == IDLE,
                polls == self.retries.accept_polls,
                self.status == old(self).status,
                self.retries == old(self).retries,
                self.op_cond == old(self).op_cond,
                self.handshake == old(self).handshake,
                self.exchanges == old(self).exchanges,
                self.cs == old(self).cs,
                s0 == old(self).sent@,
                r0 == old(self).received@,
                g0 == s0.len() - r0.len(),
                idle_after(mid, self.sent@),
                mid.subrange(0, s0.len() as int) == s0,
                mid.len() > s0.len(),
                mid[s0.len() as int] == CMD_WRITE_SINGLE,
                self.received@ == r0 + acc + q,
                self.sent@.len() - self.received@.len() == g0,
            decreases polls - i,
        {
            let tmp = match self.send_idle() {
                Ok(t) => t,
                Err(e) => {
                    proof { lemma_idle_keeps_prefix(s0, mid, self.sent@); }
                    assert(self.received@.subrange(0, r0.len() as int) =~= r0);
                    return Err(e);
                },
            };
            proof {
                q = q.push(tmp);
            }
            assert(self.received@ =~= r0 + acc + q);
            token = tmp;
            i = i + 1;
        }
        if token == IDLE {
            proof {
                let rx = acc + q;
                assert(old(self).rx_since(self) =~= rx);
                assert(rx.subrange(0, m1) =~= acc1);
                assert(rx[m1 - 1] == acc1[m1 - 1]);
                assert(rx.subrange(m1, m2) =~= p);
                assert(rx[m2 - 1] == p.last());
                assert(rx.subrange(m3, rx.len() as int) =~= q);
                assert(rx.subrange(rx.len() as int, rx.len() as int) =~= Seq::<u8>::empty());
                lemma_idle_keeps_prefix(s0, mid, self.sent@);
                assert(self.received@.subrange(0, r0.len() as int) =~= r0);
                assert(write_phases(rx, self.retries, Err(SdCardError::Timeout), m1, m2, rx.len() as int));
                let j0 = self.sent@.len() - mid.len();
                assert(self.sent@ == pre + idle_bytes(i0) + seq![DATA_START] + buf@ + idle_bytes(j0));
            }
            return Err(SdCardError::Timeout);
        }
        let accepted = token & 0x1F == 0x05;
        let ghost accq = acc;
        proof {
            acc = acc + q;
        }
        let ghost m4 = acc.len() as int;
        assert(self.received@ =~= r0 + acc + Seq::<u8>::empty());
        let polls = self.retries.busy_polls;
        let mut idle = false;
        let ghost mut w: Seq<u8> = Seq::empty();
        let mut i: u32 = 0;
        while i < polls && !idle
            invariant
                i <= polls,
                w.len() == i,
                forall|j: int| 0 <= j < w.len() - 1 ==> w[j] == 0,
                i >= 1 ==> (idle == (w.last() != 0)),
                i == 0 ==> !idle,
                polls == self.retries.busy_polls,
                self.status == old(self).status,
                self.retries == old(self).retries,
                self.op_cond == old(self).op_cond,
                self.handshake == old(self).handshake,
                self.exchanges == old(self).exchanges,
                self.cs == old(self).cs,
                s0 == old(self).sent@,
                r0 == old(self).received@,
                g0 == s0.len() - r0.len(),
                idle_after(mid, self.sent@),
                mid.subrange(0, s0.len() as int) == s0,
                mid.len() > s0.len(),
                mid[s0.len() as int] == CMD_WRITE_SINGLE,
                self.received@ == r0 + acc + w,
                self.sent@.len() - self.received@.len() == g0,
            decreases polls - i,
        {
            let tmp = match self.send_idle() {
                Ok(t) => t,
                Err(e) => {
                    proof { lemma_idle_keeps_prefix(s0, mid, self.sent@); }
                    assert(self.received@.subrange(0, r0.len() as int) =~= r0);
                    return Err(e);
                },
            };
            proof {
                w = w.push(tmp);
            }
            assert(self.received@ =~= r0 + acc + w);
            if tmp != 0 {
                idle = true;
            } else {
                self.bus.delay(100);
            }
            i = i + 1;
        }
        proof {
            let rx = acc + w;
            assert(old(self).rx_since(self) =~= rx);
            assert(rx.subrange(0, m1) =~= acc1);
            assert(rx[m1 - 1] == acc1[m1 - 1]);
            assert(rx.subrange(m1, m2) =~= p);
            assert(rx.subrange(m3, m4) =~= q);
            assert(rx.subrange(m4, rx.len() as int) =~= w);
            assert(rx[m1 - 1] == acc[m1 - 1]);
            assert(rx[m2 - 1] == p.last());
            lemma_idle_keeps_prefix(s0, mid, self.sent@);
            assert(self.received@.subrange(0, r0.len() as int) =~= r0);
        }
        proof {
            let j0 = self.sent@.len() - mid.len();
            assert(self.sent@ == pre + idle_bytes(i0) + seq![DATA_START] + buf@ + idle_bytes(j0));
        }
        if !idle {
            proof {
                assert(write_phases(acc + w, self.retries, Err(SdCardError::Timeout), m1, m2, m4));
            }
            return Err(SdCardError::Timeout);
        }
        if !accepted {
            proof {
                assert(write_phases(acc + w, self.retries, Err(SdCardError::InvalidResponse), m1, m2, m4));
            }
            return Err(SdCardError::InvalidResponse);
        }
        proof {
            assert(write_phases(acc + w, self.retries, Ok(()), m1, m2, m4));
            let j0 = self.sent@.len() - mid.len();
            assert(self.sent@ == pre + idle_bytes(i0) + seq![DATA_START] + buf@ + idle_bytes(j0));
        }
        Ok(())
    }

    /// The reset and initialisation handshake, with chip-select held active.
    #[verifier::rlimit(60)]
    fn init_inner(&mut self) -> (r: Result<u64, SdCardError>)
        requires
            old(self).op_cond_replies() == Seq::<u8>::empty(),
            old(self).handshake_replies() == Seq::<u8>::empty(),
            old(self).init_exchanges() == Seq::<Exchange>::empty(),
        ensures
            init_progress(
                final(self).handshake_replies(),
                final(self).op_cond_replies(),
                final(self).init_exchanges().len() as int,
                old(self).faulted(final(self)),
                old(self).retries().init_attempts,
                r,
            ),
            exchanges_match(
                final(self).init_exchanges(),
                final(self).sent(),
                final(self).received(),
                old(self).retries().response_polls,
                final(self).handshake_replies(),
                final(self).op_cond_replies(),
            ),
            handshake_outcome(final(self).handshake_replies(), final(self).op_cond_replies(), r),
            final(self).handshake_replies().len() >= 1 ==> has_prefix(
                final(self).sent(),
                old(self).sent() + init_head(),
            ),
            final(self).card_status() == old(self).card_status(),
            final(self).retries() == old(self).retries(),
            final(self).cs_log() == old(self).cs_log(),
            old(self).logs_grow_to(final(self)),
            (r == Err::<u64, SdCardError>(SdCardError::SpiError)) == old(self).faulted(final(self)),
            r matches Ok(c) ==> valid_capacity(c) && capacity_received(final(self).received(), c),
            init_retry_outcome(final(self).op_cond_replies(), old(self).retries().init_attempts, r),
            ready_then_capacity(
                final(self).op_cond_replies(),
                old(self).received(),
                final(self).received(),
                old(self).faulted(final(self)),
                old(self).retries(),
                r,
            ),
    {
        let ghost s0 = self.sent@;
        let ghost r0 = self.received@;
        let ghost hp = s0 + init_head();
        proof {
            assert(s0.subrange(0, s0.len() as int) =~= s0);
            assert(r0.subrange(0, r0.len() as int) =~= r0);
        }
        self.bus.delay(100000);
        let mut i: u32 = 0;
        while i < 10
            invariant
                self.status == old(self).status,
                self.retries == old(self).retries,
                self.cs == old(self).cs,
                exchanges_match(
                    self.exchanges@,
                    self.sent@,
                    self.received@,
                    self.retries.response_polls,
                    self.handshake@,
                    self.op_cond@,
                ),
                self.op_cond@ == Seq::<u8>::empty(),
                self.handshake@ == Seq::<u8>::empty(),
                self.exchanges@ == Seq::<Exchange>::empty(),
                i <= 10,
                self.sent@ == s0 + idle_bytes(i as int),
                s0 == old(self).sent@,
                r0 == old(self).received@,
                has_prefix(self.received@, r0),
                self.sent@.len() - self.received@.len() == s0.len() - r0.len(),
            decreases 10 - i,
        {
            let ghost pr = self.received@;
            let ghost ps = self.sent@;
            let rr = self.send_idle();
            proof {
                lemma_keep_prefix(r0, pr, self.received@);
                lemma_exchanges_grow(self.exchanges@, ps, pr, self.sent@, self.received@, self.retries.response_polls);
            }
            if let Err(e) = rr {
                assert(self.sent@.subrange(0, s0.len() as int) =~= s0);
                return Err(e);
            }
            assert(self.sent@ =~= s0 + idle_bytes(i + 1));
            i = i + 1;
        }
        assert(self.sent@.subrange(0, s0.len() as int) =~= s0);
        let ghost (ps, pr) = (self.sent@, self.received@);
        let rr = self.send_cmd(CMD_GO_IDLE, 0x95, 0);
        proof {
            lemma_keep_prefix(s0, ps, self.sent@);
            lemma_keep_prefix(r0, pr, self.received@);
                lemma_exchanges_grow(self.exchanges@, ps, pr, self.sent@, self.received@, self.retries.response_polls);
        }
        let res = match rr {
            Ok(v) => v,
            Err(e) => return Err(e),
        };
        let ghost old_ex = self.exchanges@;
        proof {
            assert(self.sent@.subrange(ps.len() as int, ps.len() as int + 6) =~= cmd_frame(CMD_GO_IDLE, 0, 0x95));
            assert(pr + self.received@.subrange(pr.len() as int, self.received@.len() as int) =~= self.received@);
        }
        self.exchanges = Ghost(self.exchanges@.push(Exchange {
            cmd: CMD_GO_IDLE,
            arg: 0,
            crc: 0x95,
            at_sent: ps.len() as int,
            at_recv: pr.len() as int,
            rx: self.received@.subrange(pr.len() as int, self.received@.len() as int),
            reply: Ok(res),
        }));
        proof {
            let e = self.exchanges@.last();
            assert(self.received@.subrange(e.at_recv, e.at_recv + e.rx.len()) =~= e.rx);
            assert(exchange_holds(e, self.sent@, self.received@, self.retries.response_polls));
            assert forall|i: int| 0 <= i < self.exchanges@.len() - 1 implies #[trigger] exchange_holds(self.exchanges@[i], self.sent@, self.received@, self.retries.response_polls) by {
                assert(self.exchanges@[i] == old_ex[i]);
            }
        }
        proof {
            let k = self.sent@.len() - hp.len();
            assert(self.sent@ == s0 + idle_bytes(10) + cmd_frame(CMD_GO_IDLE, 0, 0x95)
                + idle_bytes(k));
            assert(self.sent@.subrange(0, hp.len() as int) =~= hp);
        }
        let ghost (ps, pr) = (self.sent@, self.received@);
        let rr = self.send_idle();
        proof {
            lemma_keep_prefix(s0, ps, self.sent@);
            lemma_keep_prefix(r0, pr, self.received@);
                lemma_exchanges_grow(self.exchanges@, ps, pr, self.sent@, self.received@, self.retries.response_polls);
            lemma_keep_prefix(hp, ps, self.sent@);
        }
        if let Err(e) = rr {
            return Err(e);
        }
        self.handshake = Ghost(Seq::empty().push(res));
        if res & 0x7F != 1 {
            return Err(SdCardError::InvalidResponse);
        }
        self.bus.delay(100000);
        let ghost (ps, pr) = (self.sent@, self.received@);
        let rr = self.send_cmd(CMD_SEND_IF_COND, 0x86, 0x1AA);
        proof {
            lemma_keep_prefix(s0, ps, self.sent@);
            lemma_keep_prefix(r0, pr, self.received@);
                lemma_exchanges_grow(self.exchanges@, ps, pr, self.sent@, self.received@, self.retries.response_polls);
            lemma_keep_prefix(hp, ps, self.sent@);
        }
        let res = match rr {
            Ok(v) => v,
            Err(e) => return Err(e),
        };
        let ghost old_ex = self.exchanges@;
        proof {
            assert(self.sent@.subrange(ps.len() as int, ps.len() as int + 6) =~= cmd_frame(CMD_SEND_IF_COND, 0x1AA, 0x86));
            assert(pr + self.received@.subrange(pr.len() as int, self.received@.len() as int) =~= self.received@);
        }
        self.exchanges = Ghost(self.exchanges@.push(Exchange {
            cmd: CMD_SEND_IF_COND,
            arg: 0x1AA,
            crc: 0x86,
            at_sent: ps.len() as int,
            at_recv: pr.len() as int,
            rx: self.received@.subrange(pr.len() as int, self.received@.len() as int),
            reply: Ok(res),
        }));
        proof {
            let e = self.exchanges@.last();
            assert(self.received@.subrange(e.at_recv, e.at_recv + e.rx.len()) =~= e.rx);
            assert(exchange_holds(e, self.sent@, self.received@, self.retries.response_polls));
            assert forall|i: int| 0 <= i < self.exchanges@.len() - 1 implies #[trigger] exchange_holds(self.exchanges@[i], self.sent@, self.received@, self.retries.response_polls) by {
                assert(self.exchanges@[i] == old_ex[i]);
            }
        }
        if res == 0x01 {
            // The echoed voltage range and check pattern are received but
            // not compared with what was sent.
            let mut k: u32 = 0;
            while k < 4
                invariant
                    self.status == old(self).status,
                    self.retries == old(self).retries,
                    self.cs == old(self).cs,
                    exchanges_match(
                        self.exchanges@,
                        self.sent@,
                        self.received@,
                        self.retries.response_polls,
                        self.handshake@,
                        self.op_cond@,
                    ),
                exchanges_match(
                    self.exchanges@,
                    self.sent@,
                    self.received@,
                    self.retries.response_polls,
                    self.handshake@,
                    self.op_cond@,
                ),
                    self.op_cond@ == Seq::<u8>::empty(),
                    self.handshake@.len() == 1 && self.handshake@[0] & 0x7F == 1,
                    self.exchanges@.len() == 2,
                    self.exchanges@[1].reply == Ok::<u8, SdCardError>(res),
                    has_prefix(self.sent@, hp),
                    hp == old(self).sent@ + init_head(),
                    s0 == old(self).sent@,
                    r0 == old(self).received@,
                    has_prefix(self.sent@, s0),
                    has_prefix(self.received@, r0),
                    self.sent@.len() - self.received@.len() == s0.len() - r0.len(),
                decreases 4 - k,
            {
                let ghost (ps, pr) = (self.sent@, self.received@);
                let rr = self.send_idle();
                proof {
                    lemma_keep_prefix(s0, ps, self.sent@);
                    lemma_keep_prefix(r0, pr, self.received@);
                lemma_exchanges_grow(self.exchanges@, ps, pr, self.sent@, self.received@, self.retries.response_polls);
                    lemma_keep_prefix(hp, ps, self.sent@);
                }
                if let Err(e) = rr {
                    return Err(e);
                }
                k = k + 1;
            }
        }
        let ghost (ps, pr) = (self.sent@, self.received@);
        let rr = self.send_idle();
        proof {
            lemma_keep_prefix(s0, ps, self.sent@);
            lemma_keep_prefix(r0, pr, self.received@);
                lemma_exchanges_grow(self.exchanges@, ps, pr, self.sent@, self.received@, self.retries.response_polls);
            lemma_keep_prefix(hp, ps, self.sent@);
        }
        if let Err(e) = rr {
            return Err(e);
        }
        self.handshake = Ghost(self.handshake@.push(res));
        assert(self.exchanges@.len() == 2);
        assert(self.exchanges@[1].reply == Ok::<u8, SdCardError>(self.handshake@[1]));
        if res != 0x01 {
            return Err(SdCardError::InvalidResponse);
        }
        self.bus.delay(100000);
        let attempts = self.retries.init_attempts;
        let mut n: u32 = 0;
        while n < attempts
            invariant
                n <= attempts,
                attempts == self.retries.init_attempts,
                self.status == old(self).status,
                self.retries == old(self).retries,
                self.cs == old(self).cs,
                exchanges_match(
                    self.exchanges@,
                    self.sent@,
                    self.received@,
                    self.retries.response_polls,
                    self.handshake@,
                    self.op_cond@,
                ),
                self.op_cond@.len() == n,
                self.exchanges@.len() == 2 + 2 * n,
                self.handshake@.len() == 2 && self.handshake@[0] & 0x7F == 1 && self.handshake@[1] == 1,
                forall|i: int| 0 <= i < n ==> self.op_cond@[i] != 0,
                has_prefix(self.sent@, hp),
                hp == old(self).sent@ + init_head(),
                s0 == old(self).sent@,
                r0 == old(self).received@,
                has_prefix(self.sent@, s0),
                has_prefix(self.received@, r0),
                self.sent@.len() - self.received@.len() == s0.len() - r0.len(),
            decreases attempts - n,
        {
            let ghost (ps, pr) = (self.sent@, self.received@);
            let ra = self.send_cmd(CMD_APP, 0x00, 0);
            proof {
                lemma_keep_prefix(s0, ps, self.sent@);
                lemma_keep_prefix(r0, pr, self.received@);
                lemma_exchanges_grow(self.exchanges@, ps, pr, self.sent@, self.received@, self.retries.response_polls);
                lemma_keep_prefix(hp, ps, self.sent@);
            }
            let app = match ra {
                Ok(v) => v,
                Err(e) => return Err(e),
            };
            let ghost old_ex = self.exchanges@;
            proof {
                assert(self.sent@.subrange(ps.len() as int, ps.len() as int + 6) =~= cmd_frame(CMD_APP, 0, 0));
                assert(pr + self.received@.subrange(pr.len() as int, self.received@.len() as int) =~= self.received@);
            }
            self.exchanges = Ghost(self.exchanges@.push(Exchange {
                cmd: CMD_APP,
                arg: 0,
                crc: 0,
                at_sent: ps.len() as int,
                at_recv: pr.len() as int,
                rx: self.received@.subrange(pr.len() as int, self.received@.len() as int),
                reply: Ok(app),
            }));
            proof {
                let e = self.exchanges@.last();
                assert(self.received@.subrange(e.at_recv, e.at_recv + e.rx.len()) =~= e.rx);
                assert(exchange_holds(e, self.sent@, self.received@, self.retries.response_polls));
                assert forall|i: int| 0 <= i < self.exchanges@.len() - 1 implies #[trigger] exchange_holds(self.exchanges@[i], self.sent@, self.received@, self.retries.response_polls) by {
                    assert(self.exchanges@[i] == old_ex[i]);
                }
            }

            let ghost (ps, pr) = (self.sent@, self.received@);
            let rr = self.send_cmd(ACMD_SEND_OP_COND, 0x00, HCS_ARG);
            proof {
                lemma_keep_prefix(s0, ps, self.sent@);
                lemma_keep_prefix(r0, pr, self.received@);
                lemma_exchanges_grow(self.exchanges@, ps, pr, self.sent@, self.received@, self.retries.response_polls);
                lemma_keep_prefix(hp, ps, self.sent@);
            }
            let res = match rr {
                Ok(v) => v,
                Err(e) => return Err(e),
            };
            let ghost old_ex = self.exchanges@;
            proof {
                assert(self.sent@.subrange(ps.len() as int, ps.len() as int + 6) =~= cmd_frame(ACMD_SEND_OP_COND, HCS_ARG, 0));
                assert(pr + self.received@.subrange(pr.len() as int, self.received@.len() as int) =~= self.received@);
            }
            self.exchanges = Ghost(self.exchanges@.push(Exchange {
                cmd: ACMD_SEND_OP_COND,
                arg: HCS_ARG,
                crc: 0,
                at_sent: ps.len() as int,
                at_recv: pr.len() as int,
                rx: self.received@.subrange(pr.len() as int, self.received@.len() as int),
                reply: Ok(res),
            }));
            proof {
                let e = self.exchanges@.last();
                assert(self.received@.subrange(e.at_recv, e.at_recv + e.rx.len()) =~= e.rx);
                assert(exchange_holds(e, self.sent@, self.received@, self.retries.response_polls));
                assert forall|i: int| 0 <= i < self.exchanges@.len() - 1 implies #[trigger] exchange_holds(self.exchanges@[i], self.sent@, self.received@, self.retries.response_polls) by {
                    assert(self.exchanges@[i] == old_ex[i]);
                }
            }
            self.op_cond = Ghost(self.op_cond@.push(res));
            self.bus.delay(100000);
            if res == 0x00 {
                let ghost (ps, pr) = (self.sent@, self.received@);
                let rc = self.get_capacity();
                proof {
                    lemma_keep_prefix(s0, ps, self.sent@);
                    lemma_keep_prefix(r0, pr, self.received@);
                lemma_exchanges_grow(self.exchanges@, ps, pr, self.sent@, self.received@, self.retries.response_polls);
                    lemma_keep_prefix(hp, ps, self.sent@);
                    let p = pr.len() as int;
                    assert(r0.len() <= p <= self.received@.len());
                }
                return rc;
            }
            self.bus.delay(100000);
            n = n + 1;
        }
        Err(SdCardError::Timeout)
    }

    /// Resets and initialises the card and discovers its capacity. The card
    /// is then `Ready` with that capacity, or `Failed` on any error.
    pub fn init(&mut self) -> (r: Result<u64, SdCardError>)
        ensures
            old(self).init_done(final(self), r),
    {
        self.status = SdCardStatus::Init;
        self.op_cond = Ghost(Seq::empty());
        self.handshake = Ghost(Seq::empty());
        self.exchanges = Ghost(Seq::empty());
        self.bus.select();
        self.cs = Ghost(self.cs@.push((true, self.sent@.len() as int)));
        let res = self.init_inner();
        self.bus.deselect();
        self.cs = Ghost(self.cs@.push((false, self.sent@.len() as int)));
        assert(self.cs@ =~= old(self).cs@ + seq![
            (true, old(self).sent@.len() as int),
            (false, self.sent@.len() as int),
        ]);
        match res {
            Ok(cap) => {
                self.status = SdCardStatus::Ready(cap);
            },
            Err(_) => {
                self.status = SdCardStatus::Failed;
            },
        }
        res
    }

    /// Clocks out one idle byte and returns what the card sent meanwhile.
    fn send_idle(&mut self) -> (r: Result<u8, SdCardError>)
        ensures
            final(self).card_status() == old(self).card_status(),
            final(self).retries() == old(self).retries(),
            final(self).op_cond_replies() == old(self).op_cond_replies(),
            final(self).handshake_replies() == old(self).handshake_replies(),
            final(self).init_exchanges() == old(self).init_exchanges(),
            final(self).sent() == old(self).sent().push(0xFF),
            final(self).cs_log() == old(self).cs_log(),
            r is Err ==> final(self).received() == old(self).received(),
            has_prefix(final(self).sent(), old(self).sent()),
            has_prefix(final(self).received(), old(self).received()),
            forall|a: Seq<u8>| idle_after(a, old(self).sent()) ==> idle_after(a, final(self).sent()),
            r is Err ==> r == Err::<u8, SdCardError>(SdCardError::SpiError),
            r matches Ok(b) ==> final(self).received() == old(self).received().push(b),
    {
        let r = self.txrx(0xFF);
        proof {
            assert(self.sent@.subrange(0, old(self).sent@.len() as int) =~= old(self).sent@);
            assert(self.received@.subrange(0, old(self).received@.len() as int) =~= old(self).received@);
            assert forall|a: Seq<u8>| idle_after(a, old(self).sent()) implies idle_after(
                a,
                self.sent@,
            ) by {
                assert(self.sent@ =~= a + idle_bytes(self.sent@.len() - a.len()));
            }
        }
        r
    }
}

} // verus!
