use board::modem::{AtModem, ConnectionState};

fn write_line(m: &mut AtModem, s: &str) {
    for b in s.as_bytes() {
        m.write(*b);
    }
    m.write(10);
}

fn write_raw(m: &mut AtModem, bytes: &[u8]) {
    for b in bytes {
        m.write(*b);
    }
}

fn read_line(m: &mut AtModem) -> String {
    let mut out = Vec::new();
    loop {
        match m.read() {
            Some(10) => break,
            Some(b) => out.push(b),
            None => panic!("reply stream ran dry before a newline"),
        }
    }
    String::from_utf8(out).expect("reply was not text")
}

fn read_raw(m: &mut AtModem, n: usize) -> Vec<u8> {
    let mut out = Vec::new();
    for _ in 0..n {
        out.push(m.read().expect("reply stream ran dry"));
    }
    out
}

/// Drive a fresh modem to `Registered` by retrying against the injected
/// faults; deterministic for a given seed.
fn registered_modem(seed: u64) -> AtModem {
    let mut m = AtModem::from_seed(seed);
    for _ in 0..1000 {
        write_line(&mut m, "AT");
        if read_line(&mut m) == "OK" {
            break;
        }
    }
    assert_eq!(m.connection_state(), ConnectionState::Initialized);
    for _ in 0..1000 {
        write_line(&mut m, "AT+REGISTER");
        if read_line(&mut m) == "OK" {
            break;
        }
    }
    assert_eq!(m.connection_state(), ConnectionState::Registered);
    m
}

fn connected_modem(seed: u64) -> AtModem {
    let mut m = registered_modem(seed);
    write_line(&mut m, "AT+TCPCONNECT \"balloons.thetc.fakedomain\",64920");
    assert_eq!(read_line(&mut m), "OK");
    assert_eq!(m.connection_state(), ConnectionState::Connected);
    m
}

fn identified_modem(seed: u64) -> AtModem {
    let mut m = connected_modem(seed);
    write_line(&mut m, "AT+TCPSEND 6");
    write_raw(&mut m, &[0x05, 0x10, 0x00, 0x00, 0x00, 0x07]);
    assert_eq!(read_line(&mut m), "OK");
    assert!(m.is_identified());
    m
}

#[test]
fn connect_refused_from_initialized() {
    let mut m = registered_modem(11);
    // Walk back is impossible; use a fresh modem brought only to Initialized.
    let mut f = AtModem::from_seed(12);
    for _ in 0..1000 {
        write_line(&mut f, "AT");
        if read_line(&mut f) == "OK" {
            break;
        }
    }
    assert_eq!(f.connection_state(), ConnectionState::Initialized);
    write_line(&mut f, "AT+TCPCONNECT \"balloons.thetc.fakedomain\",64920");
    assert_eq!(read_line(&mut f), "ERROR");
    assert_eq!(f.connection_state(), ConnectionState::Initialized);
    // From Connected the same command is refused and the state is kept.
    write_line(&mut m, "AT+TCPCONNECT \"balloons.thetc.fakedomain\",64920");
    assert_eq!(read_line(&mut m), "OK");
    write_line(&mut m, "AT+TCPCONNECT \"balloons.thetc.fakedomain\",64920");
    assert_eq!(read_line(&mut m), "ERROR");
    assert_eq!(m.connection_state(), ConnectionState::Connected);
}

#[test]
fn connect_accepts_only_the_fake_endpoint() {
    let mut m = registered_modem(21);
    write_line(&mut m, "AT+TCPCONNECT \"balloons.thetc.fakedomain\",64921");
    assert_eq!(read_line(&mut m), "ERROR");
    assert_eq!(m.connection_state(), ConnectionState::Registered);
    write_line(&mut m, "AT+TCPCONNECT \"balloons.example.com\",64920");
    assert_eq!(read_line(&mut m), "ERROR");
    assert_eq!(m.connection_state(), ConnectionState::Registered);
    write_line(&mut m, "AT+TCPCONNECT nonsense");
    assert_eq!(read_line(&mut m), "ERROR");
    assert_eq!(m.connection_state(), ConnectionState::Registered);
    write_line(&mut m, "AT+TCPCONNECT \"balloons.thetc.fakedomain\",64920");
    assert_eq!(read_line(&mut m), "OK");
    assert_eq!(m.connection_state(), ConnectionState::Connected);
}

#[test]
fn connect_accepts_unquoted_host_and_plus_port() {
    let mut m = registered_modem(22);
    write_line(&mut m, "AT+TCPCONNECT balloons.thetc.fakedomain,+64920");
    assert_eq!(read_line(&mut m), "OK");
    assert_eq!(m.connection_state(), ConnectionState::Connected);
}

#[test]
fn identify_handshake_queues_acknowledgement() {
    let mut m = connected_modem(31);
    write_line(&mut m, "AT+TCPSEND 6");
    write_raw(&mut m, &[0x05, 0x10, 0x00, 0x00, 0x00, 0x07]);
    assert_eq!(read_line(&mut m), "OK");
    assert!(m.is_identified());
    write_line(&mut m, "AT+TCPRECV 3");
    assert_eq!(read_line(&mut m), "OK");
    assert_eq!(read_line(&mut m), "3");
    assert_eq!(read_raw(&mut m, 3), vec![0x02, 0x11, 0x01]);
    assert_eq!(m.read(), None);
}

#[test]
fn metric_before_identify_forces_disconnect() {
    let mut m = connected_modem(41);
    assert!(!m.is_identified());
    write_line(&mut m, "AT+TCPSEND 6");
    write_raw(&mut m, &[0x05, 0x12, 0x42, 0x13, 0x00, 0x00]);
    // The tunnel failure is silent on the serial side: the send still says OK.
    assert_eq!(read_line(&mut m), "OK");
    assert_eq!(m.connection_state(), ConnectionState::Registered);
    assert!(!m.is_identified());
    assert_eq!(m.metric_count(), 0);
    // The connection is gone, so a receive now fails.
    write_line(&mut m, "AT+TCPRECV 3");
    assert_eq!(read_line(&mut m), "ERROR");
}

#[test]
fn recv_returns_only_what_is_available() {
    let mut m = identified_modem(51);
    // Three acknowledgement bytes are queued; ask for ten.
    write_line(&mut m, "AT+TCPRECV 10");
    assert_eq!(read_line(&mut m), "OK");
    assert_eq!(read_line(&mut m), "3");
    assert_eq!(read_raw(&mut m, 3), vec![0x02, 0x11, 0x01]);
    // The queue is drained: a second request reports zero bytes.
    write_line(&mut m, "AT+TCPRECV 10");
    assert_eq!(read_line(&mut m), "OK");
    assert_eq!(read_line(&mut m), "0");
    assert_eq!(m.read(), None);
}

#[test]
fn initialisation_succeeds_at_about_forty_percent() {
    // Per attempt the modem comes up with probability 0.4, so the expected
    // number of ERROR replies before the first OK is 1/0.4 = 2.5.
    let trials = 400u64;
    let mut total_errors = 0u64;
    for seed in 0..trials {
        let mut m = AtModem::from_seed(seed);
        let mut errors = 0u64;
        loop {
            write_line(&mut m, "AT");
            if read_line(&mut m) == "OK" {
                break;
            }
            errors += 1;
        }
        total_errors += errors;
    }
    let mean = total_errors as f64 / trials as f64;
    assert!(mean > 2.0 && mean < 3.1, "mean attempts before success was {}", mean);
}

#[test]
fn metric_frame_roundtrips_float_exactly() {
    let mut m = identified_modem(61);
    let temperature: f32 = 9.71;
    let be = temperature.to_be_bytes();
    write_line(&mut m, "AT+TCPSEND 6");
    write_raw(&mut m, &[0x05, 0x12, be[0], be[1], be[2], be[3]]);
    assert_eq!(read_line(&mut m), "OK");
    assert_eq!(m.connection_state(), ConnectionState::Connected);
    assert_eq!(m.metric_count(), 1);
    let bits = m.metric_at(0);
    assert_eq!(bits, u32::from_be_bytes(be));
    let decoded = f32::from_be_bytes(bits.to_be_bytes());
    assert_eq!(decoded, temperature);
    assert_eq!(decoded.to_bits(), temperature.to_bits());
}

#[test]
fn status_names_the_state() {
    let mut f = AtModem::from_seed(71);
    for _ in 0..1000 {
        write_line(&mut f, "AT");
        if read_line(&mut f) == "OK" {
            break;
        }
    }
    write_line(&mut f, "AT+STATUS");
    assert_eq!(read_line(&mut f), "OK");
    assert_eq!(read_line(&mut f), "Initialized");
    let mut m = connected_modem(72);
    write_line(&mut m, "AT+STATUS");
    assert_eq!(read_line(&mut m), "OK");
    assert_eq!(read_line(&mut m), "Connected");
}

#[test]
fn latency_is_charged_per_command_not_per_byte() {
    let mut m = AtModem::from_seed(81);
    assert_eq!(m.elapsed_ms(), 0);
    write_line(&mut m, "AT");
    assert_eq!(m.elapsed_ms(), 100);
    // A line that is not valid text is refused without the simulated delay.
    m.write(0xFF);
    m.write(10);
    assert_eq!(read_line(&mut m), "ERROR");
    assert_eq!(read_line(&mut m), "ERROR");
    assert_eq!(m.elapsed_ms(), 100);
    // One write resolving two commands charges twice.
    for b in "AT\nAT\n".as_bytes() {
        m.write(*b);
    }
    assert_eq!(m.elapsed_ms(), 300);
}

#[test]
fn malformed_arguments_are_errors() {
    let mut m = connected_modem(91);
    write_line(&mut m, "AT+TCPSEND abc");
    assert_eq!(read_line(&mut m), "ERROR");
    assert_eq!(m.connection_state(), ConnectionState::Connected);
    write_line(&mut m, "AT+TCPSEND");
    assert_eq!(read_line(&mut m), "ERROR");
    write_line(&mut m, "AT+TCPRECV 99999999999999999999999");
    assert_eq!(read_line(&mut m), "ERROR");
    write_line(&mut m, "AT+BOGUS");
    assert_eq!(read_line(&mut m), "ERROR");
    write_line(&mut m, "");
    assert_eq!(read_line(&mut m), "ERROR");
    assert_eq!(m.connection_state(), ConnectionState::Connected);
}

#[test]
fn partial_lines_and_sends_wait_for_more_input() {
    let mut m = connected_modem(101);
    // A line without its newline resolves nothing.
    for b in "AT".as_bytes() {
        m.write(*b);
    }
    assert_eq!(m.read(), None);
    m.write(10);
    assert_eq!(read_line(&mut m), "OK");
    // A raw-byte send completes only once all announced bytes arrived.
    write_line(&mut m, "AT+TCPSEND 6");
    write_raw(&mut m, &[0x05, 0x10, 0x00]);
    assert_eq!(m.read(), None);
    write_raw(&mut m, &[0x00, 0x00, 0x07]);
    assert_eq!(read_line(&mut m), "OK");
    assert!(m.is_identified());
}

#[test]
fn read_on_empty_queue_signals_retry() {
    let mut m = AtModem::from_seed(111);
    assert_eq!(m.read(), None);
    m.flush();
    assert_eq!(m.read(), None);
}
