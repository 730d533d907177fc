use vstd::prelude::*;

use crate::bytes::{
    dec_digits, dec_value, eq_bytes, extend_from, find_byte, lemma_split2_at, lemma_split2_none,
    parse_dec_u64, split2, split_off_front, trim, trim_slice, u32_from_be, u32_of_be_bytes,
    u64_to_dec,
};
use crate::rng::FaultRng;

verus! {

// ---------------------------------------------------------------------------
// States
// ---------------------------------------------------------------------------

/// The modem's logical connection state. `AwaitingTcpBytes(n)` is entered
/// from `Connected` by a send command and returns to `Connected` once the
/// `n` raw payload bytes have arrived.
#[derive(Clone, Copy, Debug, PartialEq, Eq, Structural)]
pub enum ConnectionState {
    Initialising,
    Initialized,
    Registered,
    Connected,
    AwaitingTcpBytes(usize),
}

/// Frame-reassembly state of the simulated TCP peer: waiting for a length
/// byte, or holding a length while the payload is still incomplete.
#[derive(Clone, Copy, Debug, PartialEq, Eq, Structural)]
pub enum ServerFrameState {
    AwaitingLength,
    AwaitingPayload(usize),
}

/// The mathematical model of the modem: its five byte queues and flags.
/// `inbound` carries bytes from the firmware into the modem, `outbound`
/// carries reply bytes back. `tcp_write` holds bytes the client sent into
/// the simulated socket, `tcp_read` bytes queued for the client to fetch.
/// `metrics` records every temperature word the simulated peer accepted,
/// and `elapsed_ms` accumulates the fixed simulated latency, one tick per
/// completed command line.
#[verifier::ext_equal]
pub ghost struct ModemModel {
    pub inbound: Seq<u8>,
    pub outbound: Seq<u8>,
    pub state: ConnectionState,
    pub tcp_write: Seq<u8>,
    pub tcp_read: Seq<u8>,
    pub server: ServerFrameState,
    pub identified: bool,
    pub metrics: Seq<u32>,
    pub elapsed_ms: u64,
}

// ---------------------------------------------------------------------------
// Protocol constants, as byte sequences
// ---------------------------------------------------------------------------

pub open spec fn tok_at() -> Seq<u8> {
    seq![65u8, 84u8]
}

pub open spec fn tok_status() -> Seq<u8> {
    seq![65u8, 84u8, 43u8, 83u8, 84u8, 65u8, 84u8, 85u8, 83u8]
}

pub open spec fn tok_register() -> Seq<u8> {
    seq![65u8, 84u8, 43u8, 82u8, 69u8, 71u8, 73u8, 83u8, 84u8, 69u8, 82u8]
}

pub open spec fn tok_connect() -> Seq<u8> {
    seq![65u8, 84u8, 43u8, 84u8, 67u8, 80u8, 67u8, 79u8, 78u8, 78u8, 69u8, 67u8, 84u8]
}

pub open spec fn tok_send() -> Seq<u8> {
    seq![65u8, 84u8, 43u8, 84u8, 67u8, 80u8, 83u8, 69u8, 78u8, 68u8]
}

pub open spec fn tok_recv() -> Seq<u8> {
    seq![65u8, 84u8, 43u8, 84u8, 67u8, 80u8, 82u8, 69u8, 67u8, 86u8]
}

pub open spec fn tok_ok() -> Seq<u8> {
    seq![79u8, 75u8]
}

pub open spec fn tok_error() -> Seq<u8> {
    seq![69u8, 82u8, 82u8, 79u8, 82u8]
}

/// The one endpoint the simulated network accepts: "balloons.thetc.fakedomain".
pub open spec fn tok_host() -> Seq<u8> {
    seq![
        98u8, 97u8, 108u8, 108u8, 111u8, 111u8, 110u8, 115u8, 46u8, 116u8, 104u8, 101u8, 116u8,
        99u8, 46u8, 102u8, 97u8, 107u8, 101u8, 100u8, 111u8, 109u8, 97u8, 105u8, 110u8,
    ]
}

pub open spec fn tcp_port() -> int {
    64920
}

pub open spec fn opcode_identify() -> u8 {
    0x10
}

pub open spec fn opcode_metric() -> u8 {
    0x12
}

pub open spec fn name_initialising() -> Seq<u8> {
    seq![73u8, 110u8, 105u8, 116u8, 105u8, 97u8, 108u8, 105u8, 115u8, 105u8, 110u8, 103u8]
}

pub open spec fn name_initialized() -> Seq<u8> {
    seq![73u8, 110u8, 105u8, 116u8, 105u8, 97u8, 108u8, 105u8, 122u8, 101u8, 100u8]
}

pub open spec fn name_registered() -> Seq<u8> {
    seq![82u8, 101u8, 103u8, 105u8, 115u8, 116u8, 101u8, 114u8, 101u8, 100u8]
}

pub open spec fn name_connected() -> Seq<u8> {
    seq![67u8, 111u8, 110u8, 110u8, 101u8, 99u8, 116u8, 101u8, 100u8]
}

pub open spec fn name_awaiting() -> Seq<u8> {
    seq![
        65u8, 119u8, 97u8, 105u8, 116u8, 105u8, 110u8, 103u8, 84u8, 99u8, 112u8, 66u8, 121u8,
        116u8, 101u8, 115u8,
    ]
}

/// The diagnostic text naming a connection state.
pub open spec fn state_name(s: ConnectionState) -> Seq<u8> {
    match s {
        ConnectionState::Initialising => name_initialising(),
        ConnectionState::Initialized => name_initialized(),
        ConnectionState::Registered => name_registered(),
        ConnectionState::Connected => name_connected(),
        ConnectionState::AwaitingTcpBytes(n) => name_awaiting() + seq![40u8] + dec_digits(
            n as nat,
        ) + seq![41u8],
    }
}

// ---------------------------------------------------------------------------
// Model transitions
// ---------------------------------------------------------------------------

/// Append one reply line (the text plus a terminating newline) to the
/// outbound queue.
pub open spec fn emitted(m: ModemModel, line: Seq<u8>) -> ModemModel {
    ModemModel { outbound: m.outbound + line + seq![10u8], ..m }
}

/// Account the fixed simulated latency of one completed command line,
/// saturating at the counter's limit.
pub open spec fn bump_latency(m: ModemModel) -> ModemModel {
    ModemModel {
        elapsed_ms: if m.elapsed_ms + 100 > u64::MAX {
            u64::MAX
        } else {
            (m.elapsed_ms + 100) as u64
        },
        ..m
    }
}

/// Tear the simulated connection down: back to `Registered`, both tunnel
/// queues cleared, handshake forgotten.
pub open spec fn disconnected(m: ModemModel) -> ModemModel {
    ModemModel {
        state: ConnectionState::Registered,
        server: ServerFrameState::AwaitingLength,
        tcp_write: Seq::empty(),
        tcp_read: Seq::empty(),
        identified: false,
        ..m
    }
}

/// What the simulated peer does with one complete frame. A handshake frame
/// of the right shape, seen at most once, is acknowledged into the read
/// queue; a telemetry frame of the right shape after the handshake records
/// its word; anything else tears the connection down.
pub open spec fn process_frame(m: ModemModel, frame: Seq<u8>) -> ModemModel {
    if frame.len() == 0 {
        disconnected(m)
    } else if frame[0] == opcode_identify() {
        if frame.len() == 5 && !m.identified {
            ModemModel {
                identified: true,
                tcp_read: m.tcp_read + seq![2u8, 17u8, 1u8],
                ..m
            }
        } else {
            disconnected(m)
        }
    } else if frame[0] == opcode_metric() {
        if frame.len() == 5 && m.identified {
            ModemModel { metrics: m.metrics + seq![u32_of_be_bytes(frame.subrange(1, 5))], ..m }
        } else {
            disconnected(m)
        }
    } else {
        disconnected(m)
    }
}

pub open spec fn awaiting_rank(s: ConnectionState) -> int {
    match s {
        ConnectionState::AwaitingTcpBytes(_) => 1,
        _ => 0,
    }
}

pub open spec fn server_rank(s: ServerFrameState) -> int {
    match s {
        ServerFrameState::AwaitingLength => 0,
        ServerFrameState::AwaitingPayload(_) => 1,
    }
}

/// Drive the simulated peer until no complete frame remains in the tunnel
/// write queue.
pub open spec fn dispatch(m: ModemModel) -> ModemModel
    decreases m.tcp_write.len(), server_rank(m.server),
{
    match m.server {
        ServerFrameState::AwaitingLength => {
            if m.tcp_write.len() == 0 {
                m
            } else {
                let len = m.tcp_write[0] as int;
                let m1 = ModemModel {
                    tcp_write: m.tcp_write.subrange(1, m.tcp_write.len() as int),
                    ..m
                };
                if m1.tcp_write.len() < len {
                    ModemModel { server: ServerFrameState::AwaitingPayload(len as usize), ..m1 }
                } else {
                    dispatch(consume_frame(m1, len))
                }
            }
        },
        ServerFrameState::AwaitingPayload(len) => {
            if m.tcp_write.len() < len {
                m
            } else {
                dispatch(consume_frame(m, len as int))
            }
        },
    }
}

/// Remove one complete frame of `len` bytes from the front of the tunnel
/// write queue and process it; the peer then waits for the next length byte.
pub open spec fn consume_frame(m: ModemModel, len: int) -> ModemModel
    recommends
        0 <= len <= m.tcp_write.len(),
{
    let frame = m.tcp_write.subrange(0, len);
    let m2 = ModemModel { tcp_write: m.tcp_write.subrange(len, m.tcp_write.len() as int), ..m };
    ModemModel { server: ServerFrameState::AwaitingLength, ..process_frame(m2, frame) }
}

/// Complete a pending raw-byte send: move the `n` buffered bytes into the
/// tunnel, return to `Connected`, let the peer consume whole frames (which
/// may tear the connection down again), and reply `OK`.
pub open spec fn complete_send(m: ModemModel, n: int) -> ModemModel
    recommends
        0 <= n <= m.inbound.len(),
{
    let payload = m.inbound.subrange(0, n);
    let m1 = ModemModel {
        inbound: m.inbound.subrange(n, m.inbound.len() as int),
        tcp_write: m.tcp_write + payload,
        state: ConnectionState::Connected,
        ..m
    };
    emitted(dispatch(m1), tok_ok())
}

/// The inbound queue with one more byte from the firmware.
pub open spec fn push_byte(m: ModemModel, byte: u8) -> ModemModel {
    ModemModel { inbound: m.inbound.push(byte), ..m }
}

/// Every roll of the fault injector is uniform below one hundred.
pub open spec fn rolls_bounded(rolls: Seq<u32>) -> bool {
    forall|i: int| 0 <= i < rolls.len() ==> rolls[i] < 100
}

/// Fold the whole pipeline over the inbound queue until no complete unit of
/// work remains: a pending raw send completes once its bytes are there;
/// each newline-terminated line of valid text is handled with the next roll
/// of the fault injector; a line that is not valid text is answered with
/// `ERROR` and discarded.
pub open spec fn drive(m: ModemModel, rolls: Seq<u32>) -> ModemModel
    decreases m.inbound.len(), awaiting_rank(m.state),
    via drive_decreases
{
    match m.state {
        ConnectionState::AwaitingTcpBytes(n) => {
            if m.inbound.len() < n {
                m
            } else {
                drive(complete_send(m, n as int), rolls)
            }
        },
        _ => {
            let sp = split2(m.inbound, 10);
            if sp.1 is Some {
                let m1 = ModemModel { inbound: sp.1.unwrap(), ..m };
                if is_valid_utf8(sp.0) {
                    let roll = if rolls.len() > 0 {
                        rolls[0]
                    } else {
                        0u32
                    };
                    drive(handle_line_spec(m1, sp.0, roll), rolls.skip(1))
                } else {
                    drive(emitted(m1, tok_error()), rolls)
                }
            } else {
                m
            }
        },
    }
}

#[via_fn]
proof fn drive_decreases(m: ModemModel, rolls: Seq<u32>) {
    match m.state {
        ConnectionState::AwaitingTcpBytes(n) => {
            if m.inbound.len() >= n {
                let payload = m.inbound.subrange(0, n as int);
                let m1 = ModemModel {
                    inbound: m.inbound.subrange(n as int, m.inbound.len() as int),
                    tcp_write: m.tcp_write + payload,
                    state: ConnectionState::Connected,
                    ..m
                };
                lemma_dispatch_props(m1);
            }
        },
        _ => {
            let sp = split2(m.inbound, 10);
            if sp.1 is Some {
                crate::bytes::lemma_split2_some_lens(m.inbound, 10);
                let m1 = ModemModel { inbound: sp.1.unwrap(), ..m };
                if is_valid_utf8(sp.0) {
                    let roll = if rolls.len() > 0 {
                        rolls[0]
                    } else {
                        0u32
                    };
                    lemma_handle_line_props(m1, sp.0, roll);
                }
            }
        },
    }
}

/// Every roll run of a byte-by-byte feed is bounded.
pub open spec fn rollss_bounded(rollss: Seq<Seq<u32>>) -> bool {
    forall|i: int| 0 <= i < rollss.len() ==> rolls_bounded(#[trigger] rollss[i])
}

/// Feed a run of bytes into the modem one at a time, driving the whole
/// pipeline after each byte, as the serial interface does; `rollss[i]` is
/// the run of fault-injector rolls taken while digesting byte `i`.
pub open spec fn feed(m: ModemModel, data: Seq<u8>, rollss: Seq<Seq<u32>>) -> ModemModel
    decreases data.len(),
{
    if data.len() == 0 {
        m
    } else {
        let rolls = if rollss.len() > 0 {
            rollss[0]
        } else {
            Seq::empty()
        };
        feed(drive(push_byte(m, data[0]), rolls), data.skip(1), rollss.skip(1))
    }
}

/// Whether an argument names the one accepted endpoint: a comma-separated
/// pair of the fake host (optionally quoted, whitespace trimmed) and the
/// fake port.
pub open spec fn connect_arg_good(arg: Seq<u8>) -> bool {
    let sp = split2(arg, 44);
    match sp.1 {
        None => false,
        Some(rest) => trim(trim(sp.0, true), false) == tok_host() && dec_value(trim(rest, true))
            == Some(tcp_port()),
    }
}

pub open spec fn connect_spec(m: ModemModel, arg: Option<Seq<u8>>) -> ModemModel {
    if arg is None || m.state != ConnectionState::Registered {
        emitted(m, tok_error())
    } else if connect_arg_good(arg.unwrap()) {
        emitted(ModemModel { state: ConnectionState::Connected, ..m }, tok_ok())
    } else {
        emitted(m, tok_error())
    }
}

pub open spec fn register_spec(m: ModemModel, roll: u32) -> ModemModel {
    if roll < 40 {
        emitted(m, tok_error())
    } else if m.state == ConnectionState::Initialized {
        emitted(ModemModel { state: ConnectionState::Registered, ..m }, tok_ok())
    } else {
        emitted(m, tok_error())
    }
}

pub open spec fn send_spec(m: ModemModel, arg: Option<Seq<u8>>) -> ModemModel {
    if arg is None || m.state != ConnectionState::Connected {
        emitted(m, tok_error())
    } else {
        match dec_value(arg.unwrap()) {
            None => emitted(m, tok_error()),
            Some(v) => if v > usize::MAX {
                emitted(m, tok_error())
            } else {
                ModemModel { state: ConnectionState::AwaitingTcpBytes(v as usize), ..m }
            },
        }
    }
}

pub open spec fn recv_spec(m: ModemModel, arg: Option<Seq<u8>>) -> ModemModel {
    if arg is None || m.state != ConnectionState::Connected {
        emitted(m, tok_error())
    } else {
        match dec_value(arg.unwrap()) {
            None => emitted(m, tok_error()),
            Some(v) => if v > usize::MAX {
                emitted(m, tok_error())
            } else {
                let k = if v <= m.tcp_read.len() {
                    v
                } else {
                    m.tcp_read.len() as int
                };
                ModemModel {
                    tcp_read: m.tcp_read.subrange(k, m.tcp_read.len() as int),
                    outbound: m.outbound + tok_ok() + seq![10u8] + dec_digits(k as nat) + seq![
                        10u8,
                    ] + m.tcp_read.subrange(0, k),
                    ..m
                }
            },
        }
    }
}

/// One newline-terminated command line, already extracted from the inbound
/// queue and known to be valid text. `roll` is the fault injector's draw
/// for this command, uniform below 100.
pub open spec fn handle_line_spec(m: ModemModel, line: Seq<u8>, roll: u32) -> ModemModel {
    let m1 = bump_latency(m);
    if m1.state == ConnectionState::Initialising {
        let m2 = if roll < 40 {
            ModemModel { state: ConnectionState::Initialized, ..m1 }
        } else {
            m1
        };
        emitted(m2, tok_error())
    } else {
        let sp = split2(line, 32);
        let cmd = sp.0;
        if cmd == tok_at() {
            emitted(m1, tok_ok())
        } else if cmd == tok_status() {
            emitted(emitted(m1, tok_ok()), state_name(m1.state))
        } else if cmd == tok_register() {
            register_spec(m1, roll)
        } else if cmd == tok_connect() {
            connect_spec(m1, sp.1)
        } else if cmd == tok_send() {
            send_spec(m1, sp.1)
        } else if cmd == tok_recv() {
            recv_spec(m1, sp.1)
        } else {
            emitted(m1, tok_error())
        }
    }
}

// ---------------------------------------------------------------------------
// Well-formedness and quiescence
// ---------------------------------------------------------------------------

/// The structural invariant of the emulator: outside a live connection the
/// tunnel carries nothing and the handshake is forgotten, and a parked
/// frame length always exceeds what is buffered.
pub open spec fn wf_model(m: ModemModel) -> bool {
    &&& ((m.state is Connected || m.state is AwaitingTcpBytes) || (m.tcp_write.len() == 0
        && m.tcp_read.len() == 0 && !m.identified && m.server is AwaitingLength))
    &&& (match m.server {
        ServerFrameState::AwaitingPayload(l) => m.tcp_write.len() < l,
        ServerFrameState::AwaitingLength => true,
    })
}

/// No further work is pending in the inbound queue: too few raw bytes for a
/// pending send, or no complete line.
pub open spec fn quiescent(m: ModemModel) -> bool {
    match m.state {
        ConnectionState::AwaitingTcpBytes(n) => m.inbound.len() < n,
        _ => !m.inbound.contains(10u8),
    }
}

// ---------------------------------------------------------------------------
// The emulator
// ---------------------------------------------------------------------------

/// Names whether a run of bytes decodes as UTF-8 text; the result depends
/// on the bytes alone.
pub uninterp spec fn is_valid_utf8(s: Seq<u8>) -> bool;

/// Relies on `core::str::from_utf8`: tells whether the bytes decode as
/// UTF-8 text.
#[verifier::external_body]
fn utf8_ok(s: &[u8]) -> (r: bool)
    ensures
        r == is_valid_utf8(s@),
{
    core::str::from_utf8(s).is_ok()
}

/// The error a serial poll can raise: nothing arrived in time.
#[derive(Clone, Copy, Debug, PartialEq, Eq, Structural)]
pub enum SerialError {
    Timeout,
}

/// The simulated AT modem: a command parser over the inbound serial queue,
/// a connection state machine, and a frame-dispatching TCP peer, with a
/// seedable fault injector.
pub struct AtModem {
    write_buffer: Vec<u8>,
    read_buffer: Vec<u8>,
    state: ConnectionState,
    rng: FaultRng,
    tcp_write_buffer: Vec<u8>,
    tcp_read_buffer: Vec<u8>,
    tcp_server_state: ServerFrameState,
    tcp_server_identified: bool,
    metrics: Vec<u32>,
    elapsed_ms: u64,
}

impl View for AtModem {
    type V = ModemModel;

    closed spec fn view(&self) -> ModemModel {
        ModemModel {
            inbound: self.write_buffer@,
            outbound: self.read_buffer@,
            state: self.state,
            tcp_write: self.tcp_write_buffer@,
            tcp_read: self.tcp_read_buffer@,
            server: self.tcp_server_state,
            identified: self.tcp_server_identified,
            metrics: self.metrics@,
            elapsed_ms: self.elapsed_ms,
        }
    }
}

pub open spec fn initial_model() -> ModemModel {
    ModemModel {
        inbound: Seq::empty(),
        outbound: Seq::empty(),
        state: ConnectionState::Initialising,
        tcp_write: Seq::empty(),
        tcp_read: Seq::empty(),
        server: ServerFrameState::AwaitingLength,
        identified: false,
        metrics: Seq::empty(),
        elapsed_ms: 0,
    }
}

fn is_tok_at(s: &[u8]) -> (r: bool)
    ensures
        r == (s@ == tok_at()),
{
    let t: [u8; 2] = [65, 84];
    proof {
        assert(t@ =~= tok_at());
    }
    eq_bytes(s, t.as_slice())
}

fn is_tok_status(s: &[u8]) -> (r: bool)
    ensures
        r == (s@ == tok_status()),
{
    let t: [u8; 9] = [65, 84, 43, 83, 84, 65, 84, 85, 83];
    proof {
        assert(t@ =~= tok_status());
    }
    eq_bytes(s, t.as_slice())
}

fn is_tok_register(s: &[u8]) -> (r: bool)
    ensures
        r == (s@ == tok_register()),
{
    let t: [u8; 11] = [65, 84, 43, 82, 69, 71, 73, 83, 84, 69, 82];
    proof {
        assert(t@ =~= tok_register());
    }
    eq_bytes(s, t.as_slice())
}

fn is_tok_connect(s: &[u8]) -> (r: bool)
    ensures
        r == (s@ == tok_connect()),
{
    let t: [u8; 13] = [65, 84, 43, 84, 67, 80, 67, 79, 78, 78, 69, 67, 84];
    proof {
        assert(t@ =~= tok_connect());
    }
    eq_bytes(s, t.as_slice())
}

fn is_tok_send(s: &[u8]) -> (r: bool)
    ensures
        r == (s@ == tok_send()),
{
    let t: [u8; 10] = [65, 84, 43, 84, 67, 80, 83, 69, 78, 68];
    proof {
        assert(t@ =~= tok_send());
    }
    eq_bytes(s, t.as_slice())
}

fn is_tok_recv(s: &[u8]) -> (r: bool)
    ensures
        r == (s@ == tok_recv()),
{
    let t: [u8; 10] = [65, 84, 43, 84, 67, 80, 82, 69, 67, 86];
    proof {
        assert(t@ =~= tok_recv());
    }
    eq_bytes(s, t.as_slice())
}

fn is_tok_host(s: &[u8]) -> (r: bool)
    ensures
        r == (s@ == tok_host()),
{
    let t: [u8; 25] = [
        98, 97, 108, 108, 111, 111, 110, 115, 46, 116, 104, 101, 116, 99, 46, 102, 97, 107, 101,
        100, 111, 109, 97, 105, 110,
    ];
    proof {
        assert(t@ =~= tok_host());
    }
    eq_bytes(s, t.as_slice())
}

/// The diagnostic text of a state, as bytes.
fn status_text(s: ConnectionState) -> (v: Vec<u8>)
    ensures
        v@ == state_name(s),
{
    match s {
        ConnectionState::Initialising => {
            let t: [u8; 12] = [73, 110, 105, 116, 105, 97, 108, 105, 115, 105, 110, 103];
            let v = vstd::slice::slice_to_vec(t.as_slice());
            proof {
                assert(v@ =~= name_initialising());
            }
            v
        },
        ConnectionState::Initialized => {
            let t: [u8; 11] = [73, 110, 105, 116, 105, 97, 108, 105, 122, 101, 100];
            let v = vstd::slice::slice_to_vec(t.as_slice());
            proof {
                assert(v@ =~= name_initialized());
            }
            v
        },
        ConnectionState::Registered => {
            let t: [u8; 10] = [82, 101, 103, 105, 115, 116, 101, 114, 101, 100];
            let v = vstd::slice::slice_to_vec(t.as_slice());
            proof {
                assert(v@ =~= name_registered());
            }
            v
        },
        ConnectionState::Connected => {
            let t: [u8; 9] = [67, 111, 110, 110, 101, 99, 116, 101, 100];
            let v = vstd::slice::slice_to_vec(t.as_slice());
            proof {
                assert(v@ =~= name_connected());
            }
            v
        },
        ConnectionState::AwaitingTcpBytes(n) => {
            let t: [u8; 16] = [
                65, 119, 97, 105, 116, 105, 110, 103, 84, 99, 112, 66, 121, 116, 101, 115,
            ];
            let mut v = vstd::slice::slice_to_vec(t.as_slice());
            proof {
                assert(v@ =~= name_awaiting());
            }
            v.push(40);
            let d = u64_to_dec(n as u64);
            extend_from(&mut v, d.as_slice());
            v.push(41);
            proof {
                assert(v@ =~= state_name(s));
            }
            v
        },
    }
}

impl AtModem {
    /// A fresh modem with a fault injector seeded from the machine's
    /// entropy source (which aborts the process in the rare case that the
    /// source itself fails; `from_seed` avoids that).
    pub fn new() -> (m: AtModem)
        ensures
            m@ == initial_model(),
    {
        Self::with_rng(FaultRng::from_entropy())
    }

    /// A fresh modem whose fault injector replays deterministically from
    /// the given seed.
    pub fn from_seed(seed: u64) -> (m: AtModem)
        ensures
            m@ == initial_model(),
    {
        Self::with_rng(FaultRng::from_seed(seed))
    }

    fn with_rng(rng: FaultRng) -> (m: AtModem)
        ensures
            m@ == initial_model(),
    {
        let m = AtModem {
            write_buffer: Vec::new(),
            read_buffer: Vec::new(),
            state: ConnectionState::Initialising,
            rng,
            tcp_write_buffer: Vec::new(),
            tcp_read_buffer: Vec::new(),
            tcp_server_state: ServerFrameState::AwaitingLength,
            tcp_server_identified: false,
            metrics: Vec::new(),
            elapsed_ms: 0,
        };
        proof {
            assert(m@ =~= initial_model());
        }
        m
    }

    fn write_line(&mut self, line: &[u8])
        ensures
            final(self)@ == emitted(old(self)@, line@),
    {
        extend_from(&mut self.read_buffer, line);
        self.read_buffer.push(10);
        proof {
            assert(self@ =~= emitted(old(self)@, line@));
        }
    }

    fn write_ok(&mut self)
        ensures
            final(self)@ == emitted(old(self)@, tok_ok()),
    {
        let t: [u8; 2] = [79, 75];
        proof {
            assert(t@ =~= tok_ok());
        }
        self.write_line(t.as_slice());
    }

    fn write_error(&mut self)
        ensures
            final(self)@ == emitted(old(self)@, tok_error()),
    {
        let t: [u8; 5] = [69, 82, 82, 79, 82];
        proof {
            assert(t@ =~= tok_error());
        }
        self.write_line(t.as_slice());
    }

    fn close_tcp(&mut self)
        ensures
            final(self)@ == disconnected(old(self)@),
    {
        self.state = ConnectionState::Registered;
        self.tcp_server_state = ServerFrameState::AwaitingLength;
        self.tcp_write_buffer.clear();
        self.tcp_read_buffer.clear();
        self.tcp_server_identified = false;
        proof {
            assert(self@ =~= disconnected(old(self)@));
        }
    }

    fn apply_frame(&mut self, frame: &Vec<u8>)
        ensures
            final(self)@ == process_frame(old(self)@, frame@),
    {
        if frame.len() == 0 {
            self.close_tcp();
            return ;
        }
        let op = frame[0];
        if op == 0x10 {
            if frame.len() == 5 && !self.tcp_server_identified {
                self.tcp_server_identified = true;
                let resp: [u8; 3] = [2, 17, 1];
                extend_from(&mut self.tcp_read_buffer, resp.as_slice());
                proof {
                    assert(resp@ =~= seq![2u8, 17u8, 1u8]);
                    assert(self@ =~= process_frame(old(self)@, frame@));
                }
            } else {
                self.close_tcp();
            }
        } else if op == 0x12 {
            if frame.len() == 5 && self.tcp_server_identified {
                let bits = u32_from_be(vstd::slice::slice_subrange(frame.as_slice(), 1, 5));
                self.metrics.push(bits);
                proof {
                    assert(self@.metrics =~= old(self)@.metrics + seq![
                        u32_of_be_bytes(frame@.subrange(1, 5)),
                    ]);
                    assert(self@ =~= process_frame(old(self)@, frame@));
                }
            } else {
                self.close_tcp();
            }
        } else {
            self.close_tcp();
        }
    }

    fn run_dispatcher(&mut self)
        ensures
            final(self)@ == dispatch(old(self)@),
    {
        loop
            invariant
                dispatch(self@) == dispatch(old(self)@),
            decreases self.tcp_write_buffer.len(), server_rank(self.tcp_server_state),
        {
            let ghost m_top = self@;
            let length: usize = match self.tcp_server_state {
                ServerFrameState::AwaitingLength => {
                    if self.tcp_write_buffer.len() == 0 {
                        proof {
                            assert(dispatch(self@) == self@);
                        }
                        return ;
                    }
                    let l = self.tcp_write_buffer.remove(0);
                    proof {
                        assert(self@.tcp_write =~= m_top.tcp_write.subrange(
                            1,
                            m_top.tcp_write.len() as int,
                        ));
                    }
                    l as usize
                },
                ServerFrameState::AwaitingPayload(l) => l,
            };
            let ghost m_mid = self@;
            if self.tcp_write_buffer.len() < length {
                self.tcp_server_state = ServerFrameState::AwaitingPayload(length);
                proof {
                    assert(dispatch(m_top) == self@);
                    assert(dispatch(self@) == self@);
                }
                return ;
            }
            let frame = split_off_front(&mut self.tcp_write_buffer, length);
            let ghost m_cut = self@;
            self.apply_frame(&frame);
            self.tcp_server_state = ServerFrameState::AwaitingLength;
            proof {
                assert(self@ =~= consume_frame(m_mid, length as int));
                assert(dispatch(m_top) == dispatch(self@));
            }
        }
    }

    /// Complete a pending raw-byte send of `n` bytes.
    fn complete_send_bytes(&mut self, n: usize)
        requires
            old(self)@.state == ConnectionState::AwaitingTcpBytes(n as int as usize),
            n <= old(self)@.inbound.len(),
        ensures
            final(self)@ == complete_send(old(self)@, n as int),
    {
        let payload = split_off_front(&mut self.write_buffer, n);
        extend_from(&mut self.tcp_write_buffer, payload.as_slice());
        self.state = ConnectionState::Connected;
        self.run_dispatcher();
        self.write_ok();
    }

    fn cmd_register(&mut self, roll: u32)
        ensures
            final(self)@ == register_spec(old(self)@, roll),
    {
        if roll < 40 {
            self.write_error();
        } else {
            match self.state {
                ConnectionState::Initialized => {
                    self.state = ConnectionState::Registered;
                    self.write_ok();
                },
                _ => {
                    self.write_error();
                },
            }
        }
    }

    fn cmd_connect(&mut self, arg: &[u8])
        ensures
            final(self)@ == connect_spec(old(self)@, Some(arg@)),
    {
        match self.state {
            ConnectionState::Registered => {},
            _ => {
                self.write_error();
                return ;
            },
        }
        match find_byte(arg, 44) {
            None => {
                proof {
                    lemma_split2_none(arg@, 44);
                }
                self.write_error();
            },
            Some(i) => {
                proof {
                    lemma_split2_at(arg@, 44, i as int);
                }
                let alen = arg.len();
                let h0 = vstd::slice::slice_subrange(arg, 0, i);
                let rest = vstd::slice::slice_subrange(arg, i + 1, alen);
                let host = trim_slice(trim_slice(h0, true), false);
                let port_s = trim_slice(rest, true);
                match parse_dec_u64(port_s) {
                    None => {
                        self.write_error();
                    },
                    Some(v) => {
                        if is_tok_host(host) && v == 64920 {
                            self.state = ConnectionState::Connected;
                            self.write_ok();
                            proof {
                                assert(connect_arg_good(arg@));
                                assert(self@ =~= connect_spec(old(self)@, Some(arg@)));
                            }
                        } else {
                            proof {
                                assert(!connect_arg_good(arg@));
                            }
                            self.write_error();
                        }
                    },
                }
            },
        }
    }

    fn cmd_send(&mut self, arg: &[u8])
        ensures
            final(self)@ == send_spec(old(self)@, Some(arg@)),
    {
        match self.state {
            ConnectionState::Connected => {},
            _ => {
                self.write_error();
                return ;
            },
        }
        proof {
            assert(usize::MAX as int <= u64::MAX as int);
        }
        match parse_dec_u64(arg) {
            None => {
                self.write_error();
            },
            Some(v) => {
                if v > usize::MAX as u64 {
                    self.write_error();
                } else {
                    self.state = ConnectionState::AwaitingTcpBytes(v as usize);
                    proof {
                        assert(self@ =~= send_spec(old(self)@, Some(arg@)));
                    }
                }
            },
        }
    }

    fn cmd_recv(&mut self, arg: &[u8])
        ensures
            final(self)@ == recv_spec(old(self)@, Some(arg@)),
    {
        match self.state {
            ConnectionState::Connected => {},
            _ => {
                self.write_error();
                return ;
            },
        }
        proof {
            assert(usize::MAX as int <= u64::MAX as int);
        }
        match parse_dec_u64(arg) {
            None => {
                self.write_error();
            },
            Some(v) => {
                if v > usize::MAX as u64 {
                    self.write_error();
                } else {
                    let n = v as usize;
                    let k = if n <= self.tcp_read_buffer.len() {
                        n
                    } else {
                        self.tcp_read_buffer.len()
                    };
                    let taken = split_off_front(&mut self.tcp_read_buffer, k);
                    self.write_ok();
                    let d = u64_to_dec(k as u64);
                    self.write_line(d.as_slice());
                    extend_from(&mut self.read_buffer, taken.as_slice());
                    proof {
                        assert(self@ =~= recv_spec(old(self)@, Some(arg@)));
                    }
                }
            },
        }
    }

    /// Handle one complete command line with the fault injector's draw for
    /// this command.
    fn handle_line(&mut self, line: &[u8], roll: u32)
        ensures
            final(self)@ == handle_line_spec(old(self)@, line@, roll),
    {
        // Account the modem's fixed per-command turnaround time.
        self.elapsed_ms = if self.elapsed_ms > u64::MAX - 100 {
            u64::MAX
        } else {
            self.elapsed_ms + 100
        };
        proof {
            assert(self@ =~= bump_latency(old(self)@));
        }
        match self.state {
            ConnectionState::Initialising => {
                // The modem needs a few attempts to come up.
                if roll < 40 {
                    self.state = ConnectionState::Initialized;
                }
                self.write_error();
                return ;
            },
            _ => {},
        }
        let ghost m1 = self@;
        let nl = find_byte(line, 32);
        let (cmd, has_arg): (&[u8], bool) = match nl {
            Some(i) => {
                proof {
                    lemma_split2_at(line@, 32, i as int);
                }
                (vstd::slice::slice_subrange(line, 0, i), true)
            },
            None => {
                proof {
                    lemma_split2_none(line@, 32);
                }
                (line, false)
            },
        };
        let llen = line.len();
        let arg: &[u8] = match nl {
            Some(i) => vstd::slice::slice_subrange(line, i + 1, llen),
            None => vstd::slice::slice_subrange(line, 0, 0),
        };
        if is_tok_at(cmd) {
            // The guard above intercepts `Initialising`, so a wake command
            // that reaches this point always succeeds.
            self.write_ok();
        } else if is_tok_status(cmd) {
            self.write_ok();
            let text = status_text(self.state);
            self.write_line(text.as_slice());
        } else if is_tok_register(cmd) {
            self.cmd_register(roll);
        } else if is_tok_connect(cmd) {
            if has_arg {
                self.cmd_connect(arg);
            } else {
                self.write_error();
            }
        } else if is_tok_send(cmd) {
            if has_arg {
                self.cmd_send(arg);
            } else {
                self.write_error();
            }
        } else if is_tok_recv(cmd) {
            if has_arg {
                self.cmd_recv(arg);
            } else {
                self.write_error();
            }
        } else {
            self.write_error();
        }
    }

    /// Consume every complete unit of work now available in the inbound
    /// queue: pending raw send bytes, then newline-terminated command lines.
    fn check_complete_command(&mut self)
        requires
            wf_model(old(self)@),
        ensures
            wf_model(final(self)@),
            quiescent(final(self)@),
            old(self)@.outbound.is_prefix_of(final(self)@.outbound),
            old(self)@.metrics.is_prefix_of(final(self)@.metrics),
            exists|rolls: Seq<u32>|
                rolls_bounded(rolls) && final(self)@ == #[trigger] drive(old(self)@, rolls),
    {
        let ghost mut taken: Seq<u32> = Seq::empty();
        proof {
            lemma_prefix_refl(self@.outbound);
            lemma_prefix_refl_u32(self@.metrics);
            assert forall|more: Seq<u32>| #[trigger] drive(old(self)@, taken + more) == drive(
                self@,
                more,
            ) by {
                assert(taken + more =~= more);
            }
        }
        loop
            invariant
                wf_model(self@),
                old(self)@.outbound.is_prefix_of(self@.outbound),
                old(self)@.metrics.is_prefix_of(self@.metrics),
                rolls_bounded(taken),
                forall|more: Seq<u32>| #[trigger] drive(old(self)@, taken + more) == drive(
                    self@,
                    more,
                ),
            decreases self.write_buffer.len(), awaiting_rank(self.state),
        {
            let ghost m_top = self@;
            match self.state {
                ConnectionState::AwaitingTcpBytes(n) => {
                    if self.write_buffer.len() < n {
                        proof {
                            lemma_loop_exit(old(self)@, self@, taken);
                        }
                        return ;
                    }
                    self.complete_send_bytes(n);
                    proof {
                        lemma_complete_send_props(m_top, n as int);
                        lemma_prefix_trans(old(self)@.outbound, m_top.outbound, self@.outbound);
                        lemma_prefix_trans_u32(old(self)@.metrics, m_top.metrics, self@.metrics);
                        assert forall|more: Seq<u32>| #[trigger] drive(old(self)@, taken + more)
                            == drive(self@, more) by {
                            assert(drive(old(self)@, taken + more) == drive(m_top, more));
                            assert(drive(m_top, more) == drive(complete_send(m_top, n as int),
                            more));
                        }
                    }
                },
                _ => {
                    let nl = find_byte(self.write_buffer.as_slice(), 10);
                    match nl {
                        None => {
                            proof {
                                lemma_split2_none(self@.inbound, 10);
                                lemma_loop_exit(old(self)@, self@, taken);
                            }
                            return ;
                        },
                        Some(i) => {
                            let line = split_off_front(&mut self.write_buffer, i);
                            self.write_buffer.remove(0);
                            let ghost m_line = self@;
                            proof {
                                lemma_split2_at(m_top.inbound, 10, i as int);
                                assert(m_line =~= (ModemModel {
                                    inbound: split2(m_top.inbound, 10).1.unwrap(),
                                    ..m_top
                                }));
                            }
                            if utf8_ok(line.as_slice()) {
                                let roll = self.rng.roll_below(100);
                                proof {
                                    assert(self@ =~= m_line);
                                }
                                self.handle_line(line.as_slice(), roll);
                                proof {
                                    lemma_handle_line_props(m_line, line@, roll);
                                    lemma_prefix_trans(
                                        old(self)@.outbound,
                                        m_line.outbound,
                                        self@.outbound,
                                    );
                                    let taken2 = taken.push(roll);
                                    assert(rolls_bounded(taken2)) by {
                                        assert forall|k: int|
                                            0 <= k < taken2.len() implies taken2[k] < 100 by {
                                            if k < taken.len() {
                                                assert(taken[k] < 100);
                                            }
                                        }
                                    }
                                    assert forall|more: Seq<u32>|
                                        #[trigger] drive(old(self)@, taken2 + more) == drive(
                                        self@,
                                        more,
                                    ) by {
                                        let with = seq![roll] + more;
                                        assert(taken2 + more =~= taken + with);
                                        assert(drive(old(self)@, taken + with) == drive(
                                            m_top,
                                            with,
                                        ));
                                        assert(with.len() > 0 && with[0] == roll);
                                        assert(with.skip(1) =~= more);
                                        assert(drive(m_top, with) == drive(
                                            handle_line_spec(m_line, line@, roll),
                                            more,
                                        ));
                                    }
                                    taken = taken2;
                                }
                            } else {
                                self.write_error();
                                proof {
                                    lemma_prefix_snoc(
                                        old(self)@.outbound,
                                        m_line.outbound,
                                        tok_error() + seq![10u8],
                                    );
                                    assert forall|more: Seq<u32>|
                                        #[trigger] drive(old(self)@, taken + more) == drive(
                                        self@,
                                        more,
                                    ) by {
                                        assert(drive(old(self)@, taken + more) == drive(
                                            m_top,
                                            more,
                                        ));
                                        assert(drive(m_top, more) == drive(
                                            emitted(m_line, tok_error()),
                                            more,
                                        ));
                                    }
                                }
                            }
                        },
                    }
                },
            }
        }
    }

    /// Read one byte of the modem's reply stream, if any is queued.
    pub fn read(&mut self) -> (r: Option<u8>)
        ensures
            match r {
                Some(b) => old(self)@.outbound.len() > 0 && b == old(self)@.outbound[0]
                    && final(self)@ == (ModemModel {
                    outbound: old(self)@.outbound.subrange(1, old(self)@.outbound.len() as int),
                    ..old(self)@
                }),
                None => old(self)@.outbound.len() == 0 && final(self)@ == old(self)@,
            },
    {
        if self.read_buffer.len() == 0 {
            None
        } else {
            let b = self.read_buffer.remove(0);
            proof {
                assert(self@ =~= (ModemModel {
                    outbound: old(self)@.outbound.subrange(1, old(self)@.outbound.len() as int),
                    ..old(self)@
                }));
            }
            Some(b)
        }
    }

    /// Accept one byte from the firmware and drive the whole pipeline until
    /// no complete unit of work remains: the byte joins the inbound queue
    /// and the final state is exactly the driver's fold over it, for some
    /// run of fault-injector rolls.
    pub fn write(&mut self, byte: u8)
        requires
            wf_model(old(self)@),
        ensures
            wf_model(final(self)@),
            quiescent(final(self)@),
            old(self)@.outbound.is_prefix_of(final(self)@.outbound),
            old(self)@.metrics.is_prefix_of(final(self)@.metrics),
            exists|rolls: Seq<u32>|
                rolls_bounded(rolls) && final(self)@ == #[trigger] drive(
                    push_byte(old(self)@, byte),
                    rolls,
                ),
    {
        self.write_buffer.push(byte);
        proof {
            assert(self@ =~= push_byte(old(self)@, byte));
            assert(wf_model(self@));
        }
        self.check_complete_command();
    }

    /// Nothing is buffered on the way out, so flushing has no effect.
    pub fn flush(&mut self)
        ensures
            final(self)@ == old(self)@,
    {
    }

    pub fn connection_state(&self) -> (r: ConnectionState)
        ensures
            r == self@.state,
    {
        self.state
    }

    pub fn is_identified(&self) -> (r: bool)
        ensures
            r == self@.identified,
    {
        self.tcp_server_identified
    }

    pub fn elapsed_ms(&self) -> (r: u64)
        ensures
            r == self@.elapsed_ms,
    {
        self.elapsed_ms
    }

    pub fn metric_count(&self) -> (r: usize)
        ensures
            r == self@.metrics.len(),
    {
        self.metrics.len()
    }

    pub fn metric_at(&self, i: usize) -> (r: u32)
        requires
            i < self@.metrics.len(),
        ensures
            r == self@.metrics[i as int],
    {
        self.metrics[i]
    }
}

// ---------------------------------------------------------------------------
// Frame lemmas used by the driver loop
// ---------------------------------------------------------------------------

/// At a quiescent point the driver is a fixed point, so the rolls taken so
/// far witness the whole run.
proof fn lemma_loop_exit(m0: ModemModel, cur: ModemModel, taken: Seq<u32>)
    requires
        rolls_bounded(taken),
        forall|more: Seq<u32>| #[trigger] drive(m0, taken + more) == drive(cur, more),
        (cur.state matches ConnectionState::AwaitingTcpBytes(n) ==> cur.inbound.len() < n),
        !(cur.state is AwaitingTcpBytes) ==> split2(cur.inbound, 10).1 is None,
    ensures
        exists|rolls: Seq<u32>| rolls_bounded(rolls) && cur == #[trigger] drive(m0, rolls),
{
    assert(drive(cur, Seq::<u32>::empty()) == cur);
    assert(taken + Seq::<u32>::empty() =~= taken);
    assert(drive(m0, taken + Seq::<u32>::empty()) == drive(cur, Seq::<u32>::empty()));
    assert(cur == drive(m0, taken));
}

pub proof fn lemma_prefix_refl(a: Seq<u8>)
    ensures
        a.is_prefix_of(a),
{
    assert(a.subrange(0, a.len() as int) =~= a);
}

pub proof fn lemma_prefix_refl_u32(a: Seq<u32>)
    ensures
        a.is_prefix_of(a),
{
    assert(a.subrange(0, a.len() as int) =~= a);
}

pub proof fn lemma_prefix_trans(a: Seq<u8>, b: Seq<u8>, c: Seq<u8>)
    requires
        a.is_prefix_of(b),
        b.is_prefix_of(c),
    ensures
        a.is_prefix_of(c),
{
    assert(c.subrange(0, a.len() as int) =~= b.subrange(0, a.len() as int));
}

pub proof fn lemma_prefix_trans_u32(a: Seq<u32>, b: Seq<u32>, c: Seq<u32>)
    requires
        a.is_prefix_of(b),
        b.is_prefix_of(c),
    ensures
        a.is_prefix_of(c),
{
    assert(c.subrange(0, a.len() as int) =~= b.subrange(0, a.len() as int));
}

pub proof fn lemma_prefix_snoc(a: Seq<u8>, b: Seq<u8>, more: Seq<u8>)
    requires
        a.is_prefix_of(b),
    ensures
        a.is_prefix_of(b + more),
{
    assert((b + more).subrange(0, b.len() as int) =~= b);
    lemma_prefix_trans(a, b, b + more);
}

/// A handled command line never touches the inbound queue, the tunnel write
/// queue, the peer's frame state or the recorded metrics; it only appends
/// to the outbound queue, may drain the tunnel read queue, and keeps the
/// structural invariant.
proof fn lemma_handle_line_props(m: ModemModel, line: Seq<u8>, roll: u32)
    ensures
        ({
            let r = handle_line_spec(m, line, roll);
            &&& r.inbound == m.inbound
            &&& m.outbound.is_prefix_of(r.outbound)
            &&& r.metrics == m.metrics
            &&& r.tcp_write == m.tcp_write
            &&& r.server == m.server
            &&& r.identified == m.identified
            &&& (wf_model(m) ==> wf_model(r))
        }),
{
    let r = handle_line_spec(m, line, roll);
    lemma_prefix_refl(m.outbound);
    assert(forall|mm: ModemModel, l: Seq<u8>|
        mm.outbound.is_prefix_of(emitted(mm, l).outbound)) by {
        assert(forall|mm: ModemModel, l: Seq<u8>|
            (mm.outbound + l + seq![10u8]).subrange(0, mm.outbound.len() as int) =~= mm.outbound);
    }
    assert(m.outbound.is_prefix_of(r.outbound));
}

/// Completing a pending raw-byte send keeps the structural invariant, only
/// appends to the outbound queue and the metric record, and leaves the
/// modem either connected or, after a tunnel failure, registered with both
/// tunnel queues cleared.
proof fn lemma_complete_send_props(m: ModemModel, n: int)
    requires
        wf_model(m),
        m.state is AwaitingTcpBytes,
        0 <= n <= m.inbound.len(),
    ensures
        ({
            let r = complete_send(m, n);
            &&& wf_model(r)
            &&& m.outbound.is_prefix_of(r.outbound)
            &&& m.metrics.is_prefix_of(r.metrics)
            &&& (r.state is Connected || r.state is Registered)
            &&& r.inbound == m.inbound.subrange(n, m.inbound.len() as int)
        }),
{
    let payload = m.inbound.subrange(0, n);
    let m1 = ModemModel {
        inbound: m.inbound.subrange(n, m.inbound.len() as int),
        tcp_write: m.tcp_write + payload,
        state: ConnectionState::Connected,
        ..m
    };
    lemma_dispatch_props(m1);
    let d = dispatch(m1);
    assert((d.outbound + tok_ok() + seq![10u8]).subrange(0, d.outbound.len() as int)
        =~= d.outbound);
    lemma_prefix_refl(m.outbound);
    lemma_prefix_trans(m.outbound, d.outbound, d.outbound + tok_ok() + seq![10u8]);
}

/// Driving the peer to a fixed point preserves the structural invariant and
/// everything outside the tunnel, and only appends to the metric record.
proof fn lemma_dispatch_props(m: ModemModel)
    requires
        m.state is Connected || (m.state is Registered && m.tcp_write.len() == 0
            && m.tcp_read.len() == 0 && !m.identified && m.server is AwaitingLength),
    ensures
        ({
            let r = dispatch(m);
            &&& r.inbound == m.inbound
            &&& r.outbound == m.outbound
            &&& r.elapsed_ms == m.elapsed_ms
            &&& m.metrics.is_prefix_of(r.metrics)
            &&& wf_model(r)
            &&& (r.state is Connected || (r.state is Registered && r.tcp_write.len() == 0
                && r.tcp_read.len() == 0 && !r.identified && r.server is AwaitingLength))
        }),
    decreases m.tcp_write.len(), server_rank(m.server),
{
    lemma_prefix_refl_u32(m.metrics);
    match m.server {
        ServerFrameState::AwaitingLength => {
            if m.tcp_write.len() == 0 {
            } else {
                let len = m.tcp_write[0] as int;
                let m1 = ModemModel {
                    tcp_write: m.tcp_write.subrange(1, m.tcp_write.len() as int),
                    ..m
                };
                if m1.tcp_write.len() < len {
                } else {
                    assert(m1.state is Connected);
                    lemma_consume_frame_props(m1, len);
                    lemma_dispatch_props(consume_frame(m1, len));
                    lemma_prefix_trans_u32(
                        m.metrics,
                        consume_frame(m1, len).metrics,
                        dispatch(consume_frame(m1, len)).metrics,
                    );
                }
            }
        },
        ServerFrameState::AwaitingPayload(len) => {
            if m.tcp_write.len() < len {
            } else {
                assert(m.state is Connected);
                lemma_consume_frame_props(m, len as int);
                lemma_dispatch_props(consume_frame(m, len as int));
                lemma_prefix_trans_u32(
                    m.metrics,
                    consume_frame(m, len as int).metrics,
                    dispatch(consume_frame(m, len as int)).metrics,
                );
            }
        },
    }
}

proof fn lemma_consume_frame_props(m: ModemModel, len: int)
    requires
        m.state is Connected,
        0 <= len <= m.tcp_write.len(),
    ensures
        ({
            let r = consume_frame(m, len);
            &&& r.inbound == m.inbound
            &&& r.outbound == m.outbound
            &&& r.elapsed_ms == m.elapsed_ms
            &&& m.metrics.is_prefix_of(r.metrics)
            &&& r.tcp_write.len() <= m.tcp_write.len() - len
            &&& r.server is AwaitingLength
            &&& (r.state is Connected || (r.state is Registered && r.tcp_write.len() == 0
                && r.tcp_read.len() == 0 && !r.identified))
            &&& (r.state == m.state || r.state is Registered)
        }),
{
    lemma_prefix_refl_u32(m.metrics);
    let frame = m.tcp_write.subrange(0, len);
    let m2 = ModemModel { tcp_write: m.tcp_write.subrange(len, m.tcp_write.len() as int), ..m };
    let p = process_frame(m2, frame);
    if frame.len() != 0 && frame[0] == opcode_metric() && frame.len() == 5 && m2.identified {
        assert((m.metrics + seq![u32_of_be_bytes(frame.subrange(1, 5))]).subrange(
            0,
            m.metrics.len() as int,
        ) =~= m.metrics);
    }
}

} // verus!
