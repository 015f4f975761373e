use metric_gauge::display::RotationInterface;
use metric_gauge::wifi::{link_step, next_step, pause_secs, LinkStage, WifiStep, POLL_MS, TX_POWER};

#[test]
fn madctl_argument_behind_the_command_is_replaced() {
    let mut d = RotationInterface::new(0x78);
    assert_eq!(d.send_commands(&[0x36]), vec![0x36]);
    assert!(d.intercept_madctl);
    assert_eq!(d.send_data(&[0x18, 0x01]), vec![0x78, 0x01]);
    assert!(!d.intercept_madctl);
    assert_eq!(d.send_data(&[0x18]), vec![0x18]);
}

#[test]
fn madctl_argument_with_the_command_is_replaced() {
    let mut d = RotationInterface::new(0x28);
    assert_eq!(d.send_commands(&[0x36, 0x18]), vec![0x36, 0x28]);
    assert!(!d.intercept_madctl);
    assert_eq!(d.send_data(&[0x18]), vec![0x18]);
}

#[test]
fn changed_blocks_are_cut() {
    let mut d = RotationInterface::new(0xab);
    let mut long: Vec<u8> = vec![0x36];
    long.extend(1u8..=20);
    let sent = d.send_commands(&long);
    assert_eq!(sent.len(), 16);
    assert_eq!(&sent[..4], &[0x36, 0xab, 2, 3]);
    d.send_commands(&[0x36]);
    let data: Vec<u8> = (0u8..20).collect();
    let sent = d.send_data(&data);
    assert_eq!(sent.len(), 16);
    assert_eq!(&sent[..3], &[0xab, 1, 2]);
}

#[test]
fn other_commands_and_empty_data_pass() {
    let mut d = RotationInterface::new(0x78);
    let long: Vec<u8> = (0u8..40).collect();
    assert_eq!(d.send_commands(&long), long);
    assert_eq!(d.send_commands(&[]), Vec::<u8>::new());
    assert_eq!(d.send_data(&long), long);
    d.send_commands(&[0x36]);
    assert_eq!(d.send_data(&[]), Vec::<u8>::new());
    assert_eq!(d.send_data(&[0x18]), vec![0x18]);
    d.send_commands(&[0x36]);
    d.send_other_data();
    assert_eq!(d.send_data(&[0x18]), vec![0x18]);
}

#[test]
fn a_pending_argument_outlasts_another_command() {
    let mut d = RotationInterface::new(0x78);
    d.send_commands(&[0x36]);
    assert_eq!(d.send_commands(&[0x2c]), vec![0x2c]);
    assert_eq!(d.send_data(&[1]), vec![0x78]);
}

#[test]
fn connecting_takes_its_steps_in_order() {
    let mut step = WifiStep::Check;
    let mut seen: Vec<WifiStep> = Vec::new();
    for ok in [false, true, true, false, true, true] {
        seen.push(step);
        step = next_step(step, ok);
    }
    assert_eq!(
        seen,
        vec![
            WifiStep::Check,
            WifiStep::Configure,
            WifiStep::WakeBeforeConnect,
            WifiStep::LowerTxPower,
            WifiStep::Connect,
            WifiStep::StayAwake,
        ]
    );
    assert_eq!(step, WifiStep::Check);
    assert_eq!(TX_POWER, 34);
}

#[test]
fn failures_lead_to_pauses() {
    assert_eq!(next_step(WifiStep::Configure, false), WifiStep::PauseAfterRefusal);
    assert_eq!(next_step(WifiStep::PauseAfterRefusal, true), WifiStep::Check);
    assert_eq!(next_step(WifiStep::Connect, false), WifiStep::PauseAfterFailure);
    assert_eq!(next_step(WifiStep::PauseAfterFailure, true), WifiStep::Check);
    assert_eq!(next_step(WifiStep::Check, true), WifiStep::AwaitDisconnect);
    assert_eq!(next_step(WifiStep::AwaitDisconnect, false), WifiStep::WakeAfterDisconnect);
    assert_eq!(next_step(WifiStep::WakeAfterDisconnect, false), WifiStep::PauseAfterDisconnect);
    assert_eq!(next_step(WifiStep::PauseAfterDisconnect, true), WifiStep::Configure);
    assert_eq!(pause_secs(WifiStep::PauseAfterDisconnect), 3);
    assert_eq!(pause_secs(WifiStep::PauseAfterRefusal), 3);
    assert_eq!(pause_secs(WifiStep::PauseAfterFailure), 5);
    assert_eq!(pause_secs(WifiStep::Connect), 0);
}

#[test]
fn the_link_comes_before_the_address() {
    assert_eq!(link_step(LinkStage::Link, false), LinkStage::Link);
    assert_eq!(link_step(LinkStage::Link, true), LinkStage::Address);
    assert_eq!(link_step(LinkStage::Address, false), LinkStage::Address);
    assert_eq!(link_step(LinkStage::Address, true), LinkStage::Up);
    assert_eq!(link_step(LinkStage::Up, true), LinkStage::Up);
    assert_eq!(POLL_MS, 500);
}
