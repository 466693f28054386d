use windows_redirector::callback::{StartError, WindowsRedirector};
use windows_redirector::direct::WindowsDirectConf;

type Redirector = WindowsRedirector<&'static str, u8, u32>;

#[test]
fn fresh_redirector_does_not_run() {
    let redirector = Redirector::new();
    assert!(!redirector.is_running());
}

#[test]
fn callbacks_go_to_the_event_loop() {
    let mut redirector = Redirector::new();
    redirector.set_packet_callback("old");
    redirector.set_packet_callback("packets");
    redirector.set_intercept_conf_callback(7);
    assert_eq!(redirector.start(1), Ok(()));
    assert!(!redirector.is_running());
    assert_eq!(redirector.run(), (Some("packets"), Some(7)));
    assert!(redirector.is_running());
}

#[test]
fn running_redirector_cannot_be_started_before_it_is_stopped() {
    let mut redirector = Redirector::new();
    redirector.set_packet_callback("packets");
    assert_eq!(redirector.start(1), Ok(()));
    // Opening the driver may fail, and the start be repeated.
    assert_eq!(redirector.start(2), Ok(()));
    assert_eq!(redirector.run(), (Some("packets"), None));
    assert_eq!(redirector.start(3), Err(StartError::AlreadyRunning));
    redirector.stop();
    assert!(!redirector.is_running());
    assert_eq!(redirector.start(4), Ok(()));
    assert_eq!(redirector.run(), (None, None));
}

#[test]
fn stopping_keeps_callbacks_that_were_not_handed_out() {
    let mut redirector = Redirector::new();
    redirector.set_intercept_conf_callback(9);
    redirector.stop();
    assert_eq!(redirector.start(1), Ok(()));
    assert_eq!(redirector.run(), (None, Some(9)));
}

#[test]
fn packet_source_has_its_name() {
    assert_eq!(WindowsDirectConf.name(), "Windows Direct Proxy");
}
