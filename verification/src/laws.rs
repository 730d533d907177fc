use vstd::prelude::*;

use crate::bytes::{
    be_bytes_of_u32, dec_digits, dec_value, lemma_be32_roundtrip, lemma_split2_glue,
    lemma_split2_none, split2,
};
use crate::modem::{drive, push_byte, quiescent};
use crate::modem::{
    bump_latency, complete_send, connect_arg_good, consume_frame, disconnected, dispatch,
    emitted, handle_line_spec, opcode_identify, opcode_metric, process_frame, tok_at,
    tok_connect, tok_error, tok_ok, tok_recv, tok_register, tok_send, tok_status,
    ConnectionState, ModemModel, ServerFrameState,
};

verus! {

/// In any settled state other than `Registered`, a connect command is
/// answered with `ERROR`, nothing else is emitted, and the whole model —
/// the connection state in particular — is unchanged but for the reply and
/// the latency tick. (While still `Initialising` the reply is also `ERROR`,
/// but the initialisation roll may move the state to `Initialized`, so that
/// state is excluded here.)
pub proof fn lemma_connect_refused_outside_registered(m: ModemModel, line: Seq<u8>, roll: u32)
    requires
        m.state != ConnectionState::Registered,
        m.state != ConnectionState::Initialising,
        split2(line, 32).0 == tok_connect(),
    ensures
        handle_line_spec(m, line, roll) == emitted(bump_latency(m), tok_error()),
        handle_line_spec(m, line, roll).state == m.state,
{
    assert(tok_at().len() == 2);
    assert(tok_status().len() == 9);
    assert(tok_register().len() == 11);
    assert(tok_send().len() == 10);
    assert(tok_recv().len() == 10);
    assert(tok_connect().len() == 13);
    assert(tok_send()[6] != tok_recv()[6]);
}

/// From `Registered`, a connect command succeeds exactly on the one fake
/// endpoint — reply `OK`, state `Connected` — and on any other argument
/// replies `ERROR` and stays `Registered`.
pub proof fn lemma_connect_from_registered(m: ModemModel, arg: Seq<u8>, roll: u32)
    requires
        m.state == ConnectionState::Registered,
    ensures
        ({
            let line = tok_connect() + seq![32u8] + arg;
            let r = handle_line_spec(m, line, roll);
            if connect_arg_good(arg) {
                r == emitted(
                    ModemModel { state: ConnectionState::Connected, ..bump_latency(m) },
                    tok_ok(),
                )
            } else {
                r == emitted(bump_latency(m), tok_error()) && r.state
                    == ConnectionState::Registered
            }
        }),
{
    let line = tok_connect() + seq![32u8] + arg;
    assert(forall|j: int| 0 <= j < tok_connect().len() ==> tok_connect()[j] != 32);
    lemma_split2_glue(tok_connect(), arg, 32);
}

/// A telemetry frame arriving before the handshake always forces a
/// disconnect: the state reverts to `Registered`, the identified flag
/// clears, and both tunnel queues are emptied.
pub proof fn lemma_metric_before_identify_disconnects(m: ModemModel, frame: Seq<u8>)
    requires
        !m.identified,
        frame.len() > 0,
        frame[0] == opcode_metric(),
    ensures
        process_frame(m, frame) == disconnected(m),
        process_frame(m, frame).state == ConnectionState::Registered,
        !process_frame(m, frame).identified,
        process_frame(m, frame).tcp_write.len() == 0,
        process_frame(m, frame).tcp_read.len() == 0,
{
}

/// A byte that completes no unit of work is only buffered: on a modem left
/// quiescent by it, the driver is a fixed point, so no reply is emitted, no
/// state moves and no latency is charged — whatever the injector rolls.
pub proof fn lemma_quiescent_write_is_buffered(m: ModemModel, byte: u8, rolls: Seq<u32>)
    requires
        quiescent(push_byte(m, byte)),
    ensures
        drive(push_byte(m, byte), rolls) == push_byte(m, byte),
{
    let p = push_byte(m, byte);
    match p.state {
        ConnectionState::AwaitingTcpBytes(_) => {
        },
        _ => {
            assert forall|j: int| 0 <= j < p.inbound.len() implies p.inbound[j] != 10u8 by {
                if p.inbound[j] == 10u8 {
                    assert(p.inbound.contains(10u8));
                }
            }
            lemma_split2_none(p.inbound, 10);
        },
    }
}

/// The fixed simulated latency is charged exactly once per handled command
/// line: every branch of the handler keeps the clock of the single tick
/// taken at its start.
pub proof fn lemma_latency_once_per_command(m: ModemModel, line: Seq<u8>, roll: u32)
    ensures
        handle_line_spec(m, line, roll).elapsed_ms == bump_latency(m).elapsed_ms,
{
}

/// The same disconnect, forced through the whole pipeline: completing a
/// six-byte raw send whose frame is a telemetry report sent before the
/// handshake ends with the connection torn down — state `Registered`, flag
/// cleared, both tunnel queues empty — while the serial side still sees
/// only `OK`, because tunnel failures are silent there.
pub proof fn lemma_metric_before_identify_disconnects_pipeline(m: ModemModel)
    requires
        m.state == ConnectionState::AwaitingTcpBytes(6),
        !m.identified,
        m.server is AwaitingLength,
        m.tcp_write.len() == 0,
        m.inbound.len() >= 6,
        m.inbound[0] == 5,
        m.inbound[1] == opcode_metric(),
    ensures
        ({
            let r = complete_send(m, 6);
            &&& r.state == ConnectionState::Registered
            &&& !r.identified
            &&& r.tcp_write.len() == 0
            &&& r.tcp_read.len() == 0
            &&& r.outbound == m.outbound + tok_ok() + seq![10u8]
            &&& r.inbound == m.inbound.subrange(6, m.inbound.len() as int)
        }),
{
    let payload = m.inbound.subrange(0, 6);
    let m1 = ModemModel {
        inbound: m.inbound.subrange(6, m.inbound.len() as int),
        tcp_write: m.tcp_write + payload,
        state: ConnectionState::Connected,
        ..m
    };
    assert(m1.tcp_write =~= payload);
    assert(m1.tcp_write[0] == 5);
    let m1b = ModemModel { tcp_write: m1.tcp_write.subrange(1, m1.tcp_write.len() as int), ..m1 };
    assert(m1b.tcp_write.len() == 5);
    let frame = m1b.tcp_write.subrange(0, 5);
    assert(frame =~= m1b.tcp_write);
    assert(frame[0] == m.inbound[1]);
    let m2 = ModemModel {
        tcp_write: m1b.tcp_write.subrange(5, m1b.tcp_write.len() as int),
        ..m1b
    };
    assert(m2.tcp_write.len() == 0);
    assert(process_frame(m2, frame) == disconnected(m2));
    let d = ModemModel { server: ServerFrameState::AwaitingLength, ..process_frame(m2, frame) };
    assert(consume_frame(m1b, 5) == d);
    assert(dispatch(d) == d);
    assert(dispatch(m1) == d);
    assert(complete_send(m, 6) == emitted(d, tok_ok()));
}

/// A well-shaped handshake frame, seen while not yet identified, sets the
/// identified flag and queues exactly the three acknowledgement bytes for
/// the client; nothing else changes.
pub proof fn lemma_identify_handshake(m: ModemModel, frame: Seq<u8>)
    requires
        !m.identified,
        frame.len() == 5,
        frame[0] == opcode_identify(),
    ensures
        process_frame(m, frame) == (ModemModel {
            identified: true,
            tcp_read: m.tcp_read + seq![2u8, 17u8, 1u8],
            ..m
        }),
{
}

/// A receive command asking for more bytes than the read queue holds
/// returns exactly the available count and drains the queue; a second
/// receive command then reports a count of zero and returns nothing.
pub proof fn lemma_recv_drains(
    m: ModemModel,
    arg: Seq<u8>,
    n: int,
    arg2: Seq<u8>,
    n2: int,
    roll: u32,
    roll2: u32,
)
    requires
        m.state == ConnectionState::Connected,
        dec_value(arg) == Some(n),
        m.tcp_read.len() < n <= usize::MAX,
        dec_value(arg2) == Some(n2),
        0 <= n2 <= usize::MAX,
    ensures
        ({
            let r1 = handle_line_spec(m, tok_recv() + seq![32u8] + arg, roll);
            let r2 = handle_line_spec(r1, tok_recv() + seq![32u8] + arg2, roll2);
            &&& r1.tcp_read.len() == 0
            &&& r1.state == ConnectionState::Connected
            &&& r1.outbound == m.outbound + tok_ok() + seq![10u8] + dec_digits(
                m.tcp_read.len(),
            ) + seq![10u8] + m.tcp_read
            &&& r2.tcp_read.len() == 0
            &&& r2.outbound == r1.outbound + tok_ok() + seq![10u8] + dec_digits(0) + seq![10u8]
        }),
{
    assert(forall|j: int| 0 <= j < tok_recv().len() ==> tok_recv()[j] != 32);
    lemma_split2_glue(tok_recv(), arg, 32);
    lemma_split2_glue(tok_recv(), arg2, 32);
    let r1 = handle_line_spec(m, tok_recv() + seq![32u8] + arg, roll);
    assert(m.tcp_read.subrange(0, m.tcp_read.len() as int) =~= m.tcp_read);
    assert(r1.tcp_read =~= Seq::<u8>::empty());
    let r2 = handle_line_spec(r1, tok_recv() + seq![32u8] + arg2, roll2);
    assert(r2.tcp_read =~= Seq::<u8>::empty());
    assert(r2.outbound =~= r1.outbound + tok_ok() + seq![10u8] + dec_digits(0) + seq![10u8]);
}

/// Round trip of a telemetry word: encoding a 32-bit word into a metric
/// frame and letting the peer decode it records exactly that word. The
/// word is the big-endian bit pattern of the reported value, so the value
/// survives bit-exactly.
pub proof fn lemma_metric_roundtrip(m: ModemModel, bits: u32)
    requires
        m.identified,
    ensures
        process_frame(m, seq![opcode_metric()] + be_bytes_of_u32(bits)) == (ModemModel {
            metrics: m.metrics + seq![bits],
            ..m
        }),
{
    let frame = seq![opcode_metric()] + be_bytes_of_u32(bits);
    assert(frame.len() == 5);
    assert(frame.subrange(1, 5) =~= be_bytes_of_u32(bits));
    lemma_be32_roundtrip(bits);
}

} // verus!
