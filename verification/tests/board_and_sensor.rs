use board::firmware::{calibrate, connect_server, get_metrics, read_modem, send_metrics};
use board::modem::{AtModem, ConnectionState};
use board::sensor::{DemoI2CBus, DemoI2CError};
use board::Board;

#[test]
fn board_assembles_its_peripherals() {
    let mut b = Board::new();
    assert_eq!(b.at_modem.connection_state(), ConnectionState::Initialising);
    assert_eq!(b.at_modem.read(), None);
}

#[test]
fn sensor_rejects_wrong_address_and_empty_command() {
    let mut bus = DemoI2CBus::from_seed(1);
    let mut buf = vec![0u8, 0u8];
    assert!(matches!(
        bus.write_read(0x20, &[0x81], &mut buf),
        Err(DemoI2CError::AddressNack)
    ));
    assert!(matches!(
        bus.write_read(0x19, &[], &mut buf),
        Err(DemoI2CError::Receive)
    ));
}

#[test]
fn calibrated_sensor_reads_near_baseline() {
    let mut bus = DemoI2CBus::from_seed(2);
    while calibrate(&mut bus).is_err() {}
    let mut ok = 0;
    for _ in 0..50 {
        if let Ok(reading) = get_metrics(&mut bus) {
            let v = u16::from_be_bytes([reading[0], reading[1]]) as i32;
            assert!((871..1071).contains(&v), "reading {} strayed from the baseline", v);
            ok += 1;
        }
    }
    assert!(ok > 0, "every read hit an injected fault");
}

#[test]
fn uncalibrated_sensor_read_is_noise_but_succeeds() {
    let mut bus = DemoI2CBus::from_seed(3);
    let mut saw_ok = false;
    for _ in 0..50 {
        let mut buf = vec![0u8, 0u8];
        if bus.write_read(0x19, &[0x81], &mut buf).is_ok() {
            saw_ok = true;
        }
    }
    assert!(saw_ok);
}

#[test]
fn sensor_faults_are_recoverable_by_retry() {
    let mut bus = DemoI2CBus::from_seed(4);
    let mut faults = 0;
    for _ in 0..2000 {
        let mut buf = vec![0u8, 0u8];
        if bus.write_read(0x19, &[0x81], &mut buf).is_err() {
            faults += 1;
        }
    }
    // Three fault values out of two hundred: about 1.5% of transactions.
    assert!(faults > 2 && faults < 100, "saw {} faults in 2000 reads", faults);
}

#[test]
fn connect_server_script_reaches_identified_connection() {
    let mut m = AtModem::from_seed(5);
    let mut done = false;
    for _ in 0..300 {
        if connect_server(&mut m).is_ok() {
            done = true;
            break;
        }
    }
    assert!(done, "the session script never got through the injected faults");
    assert_eq!(m.connection_state(), ConnectionState::Connected);
    assert!(m.is_identified());
}

#[test]
fn send_metrics_records_the_reported_word() {
    let mut m = AtModem::from_seed(6);
    while connect_server(&mut m).is_err() {}
    let temperature = 9.71f32;
    let bits = u32::from_be_bytes(temperature.to_be_bytes());
    assert!(send_metrics(&mut m, bits).is_ok());
    assert_eq!(m.metric_count(), 1);
    assert_eq!(m.metric_at(0), bits);
}

#[test]
fn send_metrics_reports_failure_before_the_handshake() {
    // Bring a modem to Connected without identifying.
    let mut m = AtModem::from_seed(8);
    let mut reply = String::new();
    let mut say = |m: &mut AtModem, line: &str| -> String {
        for b in line.as_bytes() {
            m.write(*b);
        }
        m.write(10);
        let mut out = Vec::new();
        while let Some(b) = m.read() {
            if b == 10 {
                break;
            }
            out.push(b);
        }
        String::from_utf8(out).unwrap()
    };
    while say(&mut m, "AT") != "OK" {}
    while say(&mut m, "AT+REGISTER") != "OK" {}
    reply = say(&mut m, "AT+TCPCONNECT \"balloons.thetc.fakedomain\",64920");
    assert_eq!(reply, "OK");
    assert!(!m.is_identified());
    // The peer silently drops the unidentified telemetry frame and tears
    // the connection down, so the send reports failure and records nothing.
    let bits = u32::from_be_bytes(9.71f32.to_be_bytes());
    assert!(send_metrics(&mut m, bits).is_err());
    assert_eq!(m.metric_count(), 0);
    assert_eq!(m.connection_state(), ConnectionState::Registered);
}

#[test]
fn read_modem_caps_and_times_out() {
    let mut m = AtModem::from_seed(7);
    // Nothing queued: a poll reports a timeout.
    assert!(read_modem(&mut m, None).is_err());
    // One ERROR line queued by a command while initialising.
    for b in "AT\n".as_bytes() {
        m.write(*b);
    }
    let first = read_modem(&mut m, Some(2)).expect("two bytes were queued");
    assert_eq!(first, "ER".as_bytes());
    let rest = read_modem(&mut m, None).expect("the line tail was queued");
    assert_eq!(rest, "ROR".as_bytes());
}
