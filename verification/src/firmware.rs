use vstd::prelude::*;

use crate::bytes::{eq_bytes, lemma_split2_at, lemma_split2_none, split2, u32_to_be};
use crate::modem::{
    drive, feed, lemma_prefix_refl, lemma_prefix_refl_u32, lemma_prefix_trans,
    lemma_prefix_trans_u32, push_byte, rolls_bounded, rollss_bounded, wf_model, AtModem,
    ConnectionState, ModemModel,
};
use crate::sensor::{measurement_reading, sensor_wf, DemoI2CBus};

verus! {

/// How many reply bytes one poll of the modem reads at most.
pub open spec fn modem_reply_len() -> int {
    20
}

/// The reply one read of the modem yields from an outbound queue: the bytes
/// before the first newline when it comes within the cap, else the first
/// `cap` bytes when that many are queued, else nothing — the queue would
/// run dry.
pub open spec fn reply_of(out: Seq<u8>, cap: int) -> Option<Seq<u8>> {
    let sp = split2(out, 10);
    if sp.1 is Some && sp.0.len() < cap {
        Some(sp.0)
    } else if out.len() >= cap {
        Some(out.subrange(0, cap))
    } else {
        None
    }
}

/// The byte cap of one modem poll: the requested length, or the standard
/// reply length.
pub open spec fn spec_cap(len: Option<usize>) -> int {
    match len {
        Some(l) => l as int,
        None => modem_reply_len(),
    }
}

/// What remains of the outbound queue after one read.
pub open spec fn reply_rest(out: Seq<u8>, cap: int) -> Seq<u8> {
    let sp = split2(out, 10);
    if sp.1 is Some && sp.0.len() < cap {
        sp.1.unwrap()
    } else if out.len() >= cap {
        out.subrange(cap, out.len() as int)
    } else {
        Seq::empty()
    }
}

/// Send one command line to the modem, byte by byte, newline-terminated.
/// Every byte write drives the modem's whole pipeline, so the final state
/// is exactly the byte-feed fold of the line and its newline, for some run
/// of fault-injector rolls.
pub fn write_modem(modem: &mut AtModem, cmd: &[u8]) -> (r: Result<(), ()>)
    requires
        wf_model(old(modem)@),
    ensures
        wf_model(final(modem)@),
        old(modem)@.outbound.is_prefix_of(final(modem)@.outbound),
        old(modem)@.metrics.is_prefix_of(final(modem)@.metrics),
        r is Ok,
        exists|rollss: Seq<Seq<u32>>|
            rollss_bounded(rollss) && final(modem)@ == #[trigger] feed(
                old(modem)@,
                cmd@ + seq![10u8],
                rollss,
            ),
{
    let ghost full = cmd@ + seq![10u8];
    let ghost mut taken: Seq<Seq<u32>> = Seq::empty();
    proof {
        lemma_prefix_refl(modem@.outbound);
        lemma_prefix_refl_u32(modem@.metrics);
        assert forall|rest: Seq<Seq<u32>>| #[trigger] feed(old(modem)@, full, taken + rest)
            == feed(modem@, full.skip(0), rest) by {
            assert(taken + rest =~= rest);
            assert(full.skip(0) =~= full);
        }
    }
    let mut i: usize = 0;
    while i < cmd.len()
        invariant
            i <= cmd@.len(),
            full == cmd@ + seq![10u8],
            wf_model(modem@),
            old(modem)@.outbound.is_prefix_of(modem@.outbound),
            old(modem)@.metrics.is_prefix_of(modem@.metrics),
            rollss_bounded(taken),
            forall|rest: Seq<Seq<u32>>| #[trigger] feed(old(modem)@, full, taken + rest) == feed(
                modem@,
                full.skip(i as int),
                rest,
            ),
        decreases cmd@.len() - i,
    {
        let ghost prev = modem@;
        modem.write(cmd[i]);
        proof {
            lemma_prefix_trans(old(modem)@.outbound, prev.outbound, modem@.outbound);
            lemma_prefix_trans_u32(old(modem)@.metrics, prev.metrics, modem@.metrics);
            taken = lemma_feed_step(old(modem)@, prev, modem@, full, taken, i as int);
        }
        i += 1;
    }
    let ghost prev = modem@;
    modem.write(10);
    proof {
        lemma_prefix_trans(old(modem)@.outbound, prev.outbound, modem@.outbound);
        lemma_prefix_trans_u32(old(modem)@.metrics, prev.metrics, modem@.metrics);
        assert(full[cmd@.len() as int] == 10);
        taken = lemma_feed_step(old(modem)@, prev, modem@, full, taken, cmd@.len() as int);
        assert(full.skip(full.len() as int).len() == 0);
        assert(feed(modem@, full.skip(full.len() as int), Seq::<Seq<u32>>::empty()) == modem@);
        assert(taken + Seq::<Seq<u32>>::empty() =~= taken);
        assert(feed(old(modem)@, full, taken) == modem@);
    }
    Ok(())
}

/// A witness step of a byte-by-byte feed: the byte just written extends the
/// roll record, and the continuation property carries to the next index.
proof fn lemma_feed_step(
    m0: ModemModel,
    prev: ModemModel,
    cur: ModemModel,
    data: Seq<u8>,
    taken: Seq<Seq<u32>>,
    i: int,
) -> (taken2: Seq<Seq<u32>>)
    requires
        0 <= i < data.len(),
        rollss_bounded(taken),
        forall|rest: Seq<Seq<u32>>| #[trigger] feed(m0, data, taken + rest) == feed(
            prev,
            data.skip(i),
            rest,
        ),
        exists|rolls: Seq<u32>|
            rolls_bounded(rolls) && cur == #[trigger] drive(push_byte(prev, data[i]), rolls),
    ensures
        rollss_bounded(taken2),
        forall|rest: Seq<Seq<u32>>| #[trigger] feed(m0, data, taken2 + rest) == feed(
            cur,
            data.skip(i + 1),
            rest,
        ),
{
    let sk = choose|rolls: Seq<u32>|
        rolls_bounded(rolls) && cur == #[trigger] drive(push_byte(prev, data[i]), rolls);
    let taken2 = taken.push(sk);
    assert(rollss_bounded(taken2)) by {
        assert forall|k: int| 0 <= k < taken2.len() implies rolls_bounded(
            #[trigger] taken2[k],
        ) by {
            if k < taken.len() {
                assert(rolls_bounded(taken[k]));
            }
        }
    }
    assert forall|rest: Seq<Seq<u32>>| #[trigger] feed(m0, data, taken2 + rest) == feed(
        cur,
        data.skip(i + 1),
        rest,
    ) by {
        let with = seq![sk] + rest;
        assert(taken2 + rest =~= taken + with);
        assert(feed(m0, data, taken + with) == feed(prev, data.skip(i), with));
        let tail = data.skip(i);
        assert(tail.len() > 0 && tail[0] == data[i]);
        assert(with.len() > 0 && with[0] == sk);
        assert(with.skip(1) =~= rest);
        assert(tail.skip(1) =~= data.skip(i + 1));
        assert(feed(prev, tail, with) == feed(
            drive(push_byte(prev, tail[0]), sk),
            tail.skip(1),
            with.skip(1),
        ));
    }
    taken2
}

/// Send raw payload bytes to the modem, one at a time, with no terminator;
/// the final state is exactly the byte-feed fold of the payload, for some
/// run of fault-injector rolls.
pub fn write_modem_bytes(modem: &mut AtModem, data: &[u8]) -> (r: Result<(), ()>)
    requires
        wf_model(old(modem)@),
    ensures
        wf_model(final(modem)@),
        old(modem)@.outbound.is_prefix_of(final(modem)@.outbound),
        old(modem)@.metrics.is_prefix_of(final(modem)@.metrics),
        r is Ok,
        exists|rollss: Seq<Seq<u32>>|
            rollss_bounded(rollss) && final(modem)@ == #[trigger] feed(old(modem)@, data@, rollss),
{
    let ghost mut taken: Seq<Seq<u32>> = Seq::empty();
    proof {
        lemma_prefix_refl(modem@.outbound);
        lemma_prefix_refl_u32(modem@.metrics);
        assert forall|rest: Seq<Seq<u32>>| #[trigger] feed(old(modem)@, data@, taken + rest)
            == feed(modem@, data@.skip(0), rest) by {
            assert(taken + rest =~= rest);
            assert(data@.skip(0) =~= data@);
        }
    }
    let mut i: usize = 0;
    while i < data.len()
        invariant
            i <= data@.len(),
            wf_model(modem@),
            old(modem)@.outbound.is_prefix_of(modem@.outbound),
            old(modem)@.metrics.is_prefix_of(modem@.metrics),
            rollss_bounded(taken),
            forall|rest: Seq<Seq<u32>>| #[trigger] feed(old(modem)@, data@, taken + rest) == feed(
                modem@,
                data@.skip(i as int),
                rest,
            ),
        decreases data@.len() - i,
    {
        let ghost prev = modem@;
        modem.write(data[i]);
        proof {
            lemma_prefix_trans(old(modem)@.outbound, prev.outbound, modem@.outbound);
            lemma_prefix_trans_u32(old(modem)@.metrics, prev.metrics, modem@.metrics);
            taken = lemma_feed_step(old(modem)@, prev, modem@, data@, taken, i as int);
        }
        i += 1;
    }
    proof {
        assert(data@.skip(i as int).len() == 0);
        assert(feed(modem@, data@.skip(i as int), Seq::<Seq<u32>>::empty()) == modem@);
        assert(taken + Seq::<Seq<u32>>::empty() =~= taken);
        assert(feed(old(modem)@, data@, taken) == modem@);
    }
    Ok(())
}

/// Poll the modem's reply stream for one reply: up to the first newline
/// (consumed, not returned), or `len` raw bytes; without `len`, at most the
/// standard reply length. A request may not exceed the fixed reply buffer.
/// An empty queue before either bound reports a timeout at once rather than
/// retrying the would-block signal forever: the emulator produces replies
/// only synchronously with writes, so waiting could never be satisfied.
pub fn read_modem(modem: &mut AtModem, len: Option<usize>) -> (r: Result<Vec<u8>, ()>)
    requires
        spec_cap(len) <= modem_reply_len(),
    ensures
        match r {
            Ok(reply) => reply_of(old(modem)@.outbound, spec_cap(len)) == Some(reply@)
                && final(modem)@ == (ModemModel {
                outbound: reply_rest(old(modem)@.outbound, spec_cap(len)),
                ..old(modem)@
            }),
            Err(_) => reply_of(old(modem)@.outbound, spec_cap(len)) is None && final(modem)@
                == (ModemModel { outbound: Seq::empty(), ..old(modem)@ }),
        },
{
    let cap: usize = match len {
        Some(l) => l,
        None => 20,
    };
    let ghost scap: int = spec_cap(len);
    proof {
        assert(cap as int == scap);
    }
    let ghost out0 = old(modem)@.outbound;
    let mut reply: Vec<u8> = Vec::new();
    let mut i: usize = 0;
    while i < cap
        invariant
            i <= cap,
            cap as int == scap,
            scap == spec_cap(len),
            out0 == old(modem)@.outbound,
            reply@ == out0.subrange(0, i as int),
            i <= out0.len(),
            forall|j: int| 0 <= j < i ==> out0[j] != 10,
            modem@ == (ModemModel {
                outbound: out0.subrange(i as int, out0.len() as int),
                ..old(modem)@
            }),
        decreases cap - i,
    {
        match modem.read() {
            None => {
                proof {
                    assert(out0.subrange(i as int, out0.len() as int).len() == 0);
                    assert(out0.len() == i);
                    lemma_split2_none(out0, 10);
                    assert(reply_of(out0, cap as int) is None);
                    assert(modem@ =~= (ModemModel { outbound: Seq::empty(), ..old(modem)@ }));
                }
                return Err(());
            },
            Some(b) => {
                proof {
                    assert(out0[i as int] == b);
                    assert(out0.subrange(i as int, out0.len() as int).subrange(
                        1,
                        out0.len() - i,
                    ) =~= out0.subrange(i as int + 1, out0.len() as int));
                }
                if b == 10 {
                    proof {
                        lemma_split2_at(out0, 10, i as int);
                        assert(reply_of(out0, scap) == Some(reply@));
                        assert(modem@ =~= (ModemModel {
                            outbound: reply_rest(out0, scap),
                            ..old(modem)@
                        }));
                    }
                    return Ok(reply);
                }
                reply.push(b);
                proof {
                    assert(reply@ =~= out0.subrange(0, i as int + 1));
                }
            },
        }
        i += 1;
    }
    proof {
        assert(out0.len() >= cap);
        let sp = split2(out0, 10);
        if sp.1 is Some {
            // The first newline, if any, lies at or past the cap.
            if sp.0.len() < cap {
                lemma_first_nl_index(out0, 10);
                assert(out0[sp.0.len() as int] == 10);
                assert(false);
            }
        }
        assert(reply@ == out0.subrange(0, scap));
        assert(reply_of(out0, scap) == Some(reply@));
        assert(modem@ =~= (ModemModel { outbound: reply_rest(out0, scap), ..old(modem)@ }));
    }
    Ok(reply)
}

/// Where a split found a separator, the head names its index.
proof fn lemma_first_nl_index(s: Seq<u8>, sep: u8)
    requires
        split2(s, sep).1 is Some,
    ensures
        0 <= split2(s, sep).0.len() < s.len(),
        s[split2(s, sep).0.len() as int] == sep,
    decreases s.len(),
{
    if s.len() > 0 {
        if s[0] == sep {
        } else {
            let t = s.subrange(1, s.len() as int);
            lemma_first_nl_index(t, sep);
        }
    }
}

/// Read one reply line and compare it with the expected text.
pub fn check_modem_reply(modem: &mut AtModem, expect: &[u8]) -> (r: Result<(), ()>)
    ensures
        r is Ok <==> reply_of(old(modem)@.outbound, modem_reply_len()) == Some(expect@),
        final(modem)@ == (ModemModel {
            outbound: (if reply_of(old(modem)@.outbound, modem_reply_len()) is Some {
                reply_rest(old(modem)@.outbound, modem_reply_len())
            } else {
                Seq::<u8>::empty()
            }),
            ..old(modem)@
        }),
{
    match read_modem(modem, None) {
        Err(_) => Err(()),
        Ok(reply) => {
            if eq_bytes(reply.as_slice(), expect) {
                Ok(())
            } else {
                Err(())
            }
        },
    }
}

/// Latch the sensor's calibration register. On a clean transaction the
/// sensor is calibrated afterwards; a bus fault leaves it untouched, to be
/// retried.
pub fn calibrate(bus: &mut DemoI2CBus) -> (r: Result<(), ()>)
    requires
        sensor_wf(old(bus)@),
    ensures
        sensor_wf(final(bus)@),
        final(bus)@.temperature == old(bus)@.temperature,
        r is Ok ==> final(bus)@.calibrated,
        r is Err ==> final(bus)@ == old(bus)@,
{
    let cmd: [u8; 2] = [0x11, 0x20];
    proof {
        assert(cmd@ =~= seq![0x11u8, 0x20u8]);
        assert((0x20u8 & 0x20u8) != 0) by (bit_vector);
    }
    let mut scratch: Vec<u8> = Vec::new();
    match bus.write_read(0x19, cmd.as_slice(), &mut scratch) {
        Ok(_) => Ok(()),
        Err(_) => Err(()),
    }
}

/// Read one measurement from the sensor. On a calibrated sensor a clean
/// read returns the big-endian baseline temperature plus a bounded
/// variance; a bus fault is reported for retry.
pub fn get_metrics(bus: &mut DemoI2CBus) -> (r: Result<Vec<u8>, ()>)
    requires
        sensor_wf(old(bus)@),
    ensures
        sensor_wf(final(bus)@),
        final(bus)@ == old(bus)@,
        r matches Ok(t) ==> t@.len() == 2,
        old(bus)@.calibrated ==> (r matches Ok(t) ==> (exists|var: int|
            -100 <= var < 100 && t@ == #[trigger] measurement_reading(
                old(bus)@.temperature,
                var,
            ))),
{
    let cmd: [u8; 1] = [0x81];
    let mut buf: Vec<u8> = Vec::new();
    buf.push(0);
    buf.push(0);
    proof {
        assert(buf@ =~= seq![0u8, 0u8]);
    }
    match bus.write_read(0x19, cmd.as_slice(), &mut buf) {
        Err(_) => Err(()),
        Ok(_) => {
            proof {
                assert forall|var: int|
                    buf@ == measurement_reading(old(bus)@.temperature, var) + seq![0u8, 0u8
                    ].subrange(2, 2) implies buf@ == #[trigger] measurement_reading(
                    old(bus)@.temperature,
                    var,
                ) by {
                    assert(measurement_reading(old(bus)@.temperature, var) + seq![0u8, 0u8
                    ].subrange(2, 2) =~= measurement_reading(old(bus)@.temperature, var));
                }
            }
            Ok(buf)
        },
    }
}

/// Frame a telemetry word and send it through the modem: announce six raw
/// bytes, write the metric frame — length, opcode, the four big-endian
/// word bytes — check for `OK`, and confirm against the modem's record
/// that the word was accepted. Success therefore means the peer recorded
/// exactly this word; a refused command, a torn connection or a dropped
/// frame reports failure for the caller to retry.
pub fn send_metrics(modem: &mut AtModem, bits: u32) -> (r: Result<(), ()>)
    requires
        wf_model(old(modem)@),
    ensures
        wf_model(final(modem)@),
        old(modem)@.metrics.is_prefix_of(final(modem)@.metrics),
        r is Ok ==> final(modem)@.metrics.len() > old(modem)@.metrics.len()
            && final(modem)@.metrics.last() == bits,
{
    let count0 = modem.metric_count();
    // "AT+TCPSEND 6"
    let cmd: [u8; 12] = [65, 84, 43, 84, 67, 80, 83, 69, 78, 68, 32, 54];
    let ghost m0 = modem@;
    let r = write_modem(modem, cmd.as_slice());
    let w = u32_to_be(bits);
    let ws = w.as_slice();
    let frame: [u8; 6] = [5, 0x12, ws[0], ws[1], ws[2], ws[3]];
    let ghost m1 = modem@;
    let r2 = write_modem_bytes(modem, frame.as_slice());
    proof {
        lemma_prefix_trans_u32(m0.metrics, m1.metrics, modem@.metrics);
    }
    let ghost m2 = modem@;
    let r3 = check_modem_reply(modem, &[79, 75]);
    proof {
        assert(modem@.metrics == m2.metrics);
    }
    if r3.is_err() {
        return Err(());
    }
    let count1 = modem.metric_count();
    if count1 > count0 && modem.metric_at(count1 - 1) == bits {
        Ok(())
    } else {
        Err(())
    }
}

/// Walk the modem through the whole session start: wake it, query status,
/// register, connect to the fake endpoint, and perform the tunnel
/// handshake, checking each reply. Any refused step reports failure so the
/// caller can retry; injected faults decide how far the script gets.
pub fn connect_server(modem: &mut AtModem) -> (r: Result<(), ()>)
    requires
        wf_model(old(modem)@),
    ensures
        wf_model(final(modem)@),
        old(modem)@.metrics.is_prefix_of(final(modem)@.metrics),
        r is Ok ==> final(modem)@.state is Connected && final(modem)@.identified,
{
    let ok: [u8; 2] = [79, 75];
    let ghost m0 = modem@;
    if write_modem(modem, &[65, 84]).is_err() {
        return Err(());
    }
    if check_modem_reply(modem, ok.as_slice()).is_err() {
        return Err(());
    }
    // "AT+STATUS"
    let ghost m1 = modem@;
    if write_modem(modem, &[65, 84, 43, 83, 84, 65, 84, 85, 83]).is_err() {
        proof {
            lemma_prefix_trans_u32(m0.metrics, m1.metrics, modem@.metrics);
        }
        return Err(());
    }
    proof {
        lemma_prefix_trans_u32(m0.metrics, m1.metrics, modem@.metrics);
    }
    if check_modem_reply(modem, ok.as_slice()).is_err() {
        return Err(());
    }
    // The diagnostic line naming the state is read and discarded.
    if read_modem(modem, None).is_err() {
        return Err(());
    }
    // "AT+REGISTER"
    let ghost m2 = modem@;
    if write_modem(modem, &[65, 84, 43, 82, 69, 71, 73, 83, 84, 69, 82]).is_err() {
        proof {
            lemma_prefix_trans_u32(m0.metrics, m2.metrics, modem@.metrics);
        }
        return Err(());
    }
    proof {
        lemma_prefix_trans_u32(m0.metrics, m2.metrics, modem@.metrics);
    }
    if check_modem_reply(modem, ok.as_slice()).is_err() {
        return Err(());
    }
    // "AT+TCPCONNECT balloons.thetc.fakedomain,64920"
    let connect_cmd: [u8; 45] = [
        65, 84, 43, 84, 67, 80, 67, 79, 78, 78, 69, 67, 84, 32, 98, 97, 108, 108, 111, 111, 110,
        115, 46, 116, 104, 101, 116, 99, 46, 102, 97, 107, 101, 100, 111, 109, 97, 105, 110, 44,
        54, 52, 57, 50, 48,
    ];
    let ghost m3 = modem@;
    if write_modem(modem, connect_cmd.as_slice()).is_err() {
        proof {
            lemma_prefix_trans_u32(m0.metrics, m3.metrics, modem@.metrics);
        }
        return Err(());
    }
    proof {
        lemma_prefix_trans_u32(m0.metrics, m3.metrics, modem@.metrics);
    }
    if check_modem_reply(modem, ok.as_slice()).is_err() {
        return Err(());
    }
    // "AT+TCPSEND 6", then the identify frame for device 7.
    let ghost m4 = modem@;
    if write_modem(modem, &[65, 84, 43, 84, 67, 80, 83, 69, 78, 68, 32, 54]).is_err() {
        proof {
            lemma_prefix_trans_u32(m0.metrics, m4.metrics, modem@.metrics);
        }
        return Err(());
    }
    proof {
        lemma_prefix_trans_u32(m0.metrics, m4.metrics, modem@.metrics);
    }
    let ghost m5 = modem@;
    if write_modem_bytes(modem, &[0x05, 0x10, 0, 0, 0, 0x07]).is_err() {
        proof {
            lemma_prefix_trans_u32(m0.metrics, m5.metrics, modem@.metrics);
        }
        return Err(());
    }
    proof {
        lemma_prefix_trans_u32(m0.metrics, m5.metrics, modem@.metrics);
    }
    if check_modem_reply(modem, ok.as_slice()).is_err() {
        return Err(());
    }
    // "AT+TCPRECV 3"
    let ghost m6 = modem@;
    if write_modem(modem, &[65, 84, 43, 84, 67, 80, 82, 69, 67, 86, 32, 51]).is_err() {
        proof {
            lemma_prefix_trans_u32(m0.metrics, m6.metrics, modem@.metrics);
        }
        return Err(());
    }
    proof {
        lemma_prefix_trans_u32(m0.metrics, m6.metrics, modem@.metrics);
    }
    if check_modem_reply(modem, ok.as_slice()).is_err() {
        return Err(());
    }
    // The count line is read and discarded.
    if read_modem(modem, None).is_err() {
        return Err(());
    }
    // The three acknowledgement bytes; the status byte decides, and the
    // modem itself confirms the connection the script believes it built.
    match read_modem(modem, Some(3)) {
        Err(_) => Err(()),
        Ok(ack) => {
            if ack.len() == 3 && ack[2] == 0x01 {
                let settled = match modem.connection_state() {
                    ConnectionState::Connected => true,
                    _ => false,
                };
                if settled && modem.is_identified() {
                    Ok(())
                } else {
                    Err(())
                }
            } else {
                Err(())
            }
        },
    }
}

} // verus!
