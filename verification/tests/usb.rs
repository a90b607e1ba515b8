use pixdr::android_uhd_context::{
    android_usb_fd, android_usb_firmware_loaded, android_usb_pid, android_usb_vid,
    android_usbfs_path, clear_fd, firmware_loaded, set_fd, set_firmware_loaded, set_ids,
    set_usbfs_path, usbfs_path, AndroidUsbContextState,
};
use pixdr::uhd_wrapper::{
    after_find, begin_open, open_failure, set_android_usb_path, usbfs_root_from_device_name,
    FindReply, OpenStep,
};
use pixdr::usb::{
    is_b210_related, open_b210_usb, pick_device, reset_accepted, signed_bytes, UsbAction, UsbEvent,
    UsbSession, UsbStage,
};

#[test]
fn context_starts_without_a_device() {
    let state = AndroidUsbContextState::default();
    assert_eq!(android_usb_fd(&state), -1);
    assert_eq!(android_usbfs_path(&state), "/dev/bus/usb");
    assert_eq!(android_usb_vid(&state), 0);
    assert_eq!(android_usb_pid(&state), 0);
    assert!(!android_usb_firmware_loaded(&state));
}

#[test]
fn context_holds_what_it_is_told() {
    let mut state = AndroidUsbContextState::default();
    set_ids(&mut state, 0x2500, 0x20);
    set_firmware_loaded(&mut state, true);
    set_usbfs_path(&mut state, "/x".to_string());
    set_fd(&mut state, 42);
    assert_eq!(android_usb_fd(&state), 42);
    assert_eq!((android_usb_vid(&state), android_usb_pid(&state)), (0x2500, 0x20));
    assert!(firmware_loaded(&state));
    assert_eq!(usbfs_path(&state), "/x");
    clear_fd(&mut state);
    assert_eq!(android_usb_fd(&state), -1);
    assert_eq!(usbfs_path(&state), "/x");
}

#[test]
fn device_nodes_lie_below_the_usual_root() {
    assert_eq!(usbfs_root_from_device_name("/dev/bus/usb/001/002"), "/dev/bus/usb");
    assert_eq!(usbfs_root_from_device_name("//dev/bus/usb//x/"), "/dev/bus/usb");
    assert_eq!(usbfs_root_from_device_name("dev/bus/usb/1"), "/dev/bus/usb");
    assert_eq!(usbfs_root_from_device_name("/dev/bus/usb"), "/dev/bus/usb");
    assert_eq!(usbfs_root_from_device_name("/dev/bus/usb/"), "/dev/bus/usb/");
    assert_eq!(usbfs_root_from_device_name("dev/bus/usb"), "dev/bus/usb");
    assert_eq!(usbfs_root_from_device_name("/dev/bus/usbx/1"), "/dev/bus/usbx/1");
    assert_eq!(usbfs_root_from_device_name(""), "");
}

#[test]
fn opening_searches_first_without_firmware() {
    let mut state = AndroidUsbContextState::default();
    set_android_usb_path(&mut state, "/dev/bus/usb/001/002");
    match begin_open(&mut state, 57) {
        OpenStep::Find(args) => assert_eq!(args, "type=b200,fd=57,usbfs_path=/dev/bus/usb"),
        OpenStep::Open(_) => panic!("searched too late"),
    }
    assert_eq!(android_usb_fd(&state), 57);
    assert_eq!(after_find(&mut state, &FindReply::Addresses(1)), Ok(()));
    assert_eq!(android_usb_fd(&state), 57);
    set_firmware_loaded(&mut state, true);
    match begin_open(&mut state, -3) {
        OpenStep::Find(_) => panic!("searched in vain"),
        OpenStep::Open(args) => assert_eq!(args, "type=b200,fd=-3,usbfs_path=/dev/bus/usb"),
    }
}

#[test]
fn a_search_without_result_withdraws_the_descriptor() {
    let mut state = AndroidUsbContextState::default();
    set_fd(&mut state, 9);
    assert_eq!(
        after_find(&mut state, &FindReply::Addresses(0)),
        Err("UHD find completed with no openable device yet; waiting for USB re-enumeration"
            .to_string())
    );
    assert_eq!(android_usb_fd(&state), -1);
    set_fd(&mut state, 9);
    assert_eq!(
        after_find(&mut state, &FindReply::Failed("timeout".to_string())),
        Err("UHD find failed: timeout".to_string())
    );
    assert_eq!(android_usb_fd(&state), -1);
    assert_eq!(open_failure("busy"), "Failed: busy");
}

#[test]
fn the_radio_is_known_by_its_ids() {
    assert!(is_b210_related(0x2500, 0x0020));
    assert!(is_b210_related(0x04b4, 0x00f3));
    assert!(!is_b210_related(0x2500, 0x00f3));
    assert!(!is_b210_related(0x04b4, 0x0020));
    assert_eq!(pick_device(&[(1, 2), (0x04b4, 0xf3), (0x2500, 0x20)]), Some(1));
    assert_eq!(pick_device(&[(1, 2)]), None);
}

#[test]
fn taking_over_a_device_step_by_step() {
    let mut stage = UsbStage::Scanning;
    let mut session = UsbSession::new();
    let mut context = AndroidUsbContextState::default();
    let listed = UsbEvent::Devices(vec![(7, 7), (0x2500, 0x20)]);
    assert_eq!(
        open_b210_usb(&mut stage, &mut session, &mut context, listed),
        UsbAction::LookUpPermission(1)
    );
    assert_eq!(
        open_b210_usb(&mut stage, &mut session, &mut context, UsbEvent::Permission(true)),
        UsbAction::OpenDevice(1)
    );
    assert_eq!(
        open_b210_usb(&mut stage, &mut session, &mut context, UsbEvent::Opened(Some(33))),
        UsbAction::Probe
    );
    let probed = UsbEvent::Probed(2, "/dev/bus/usb/003/004".to_string());
    assert_eq!(
        open_b210_usb(&mut stage, &mut session, &mut context, probed),
        UsbAction::Finish(Some(33))
    );
    assert_eq!(stage, UsbStage::Over);
    assert_eq!((android_usb_vid(&context), android_usb_pid(&context)), (0x2500, 0x20));
    assert!(android_usb_firmware_loaded(&context));
    assert_eq!(android_usbfs_path(&context), "/dev/bus/usb");
}

#[test]
fn permission_is_asked_for_once() {
    let mut session = UsbSession::new();
    let mut context = AndroidUsbContextState::default();
    let mut attempt = |session: &mut UsbSession, granted| {
        let mut stage = UsbStage::Permission(0, 0x2500, 0x20);
        open_b210_usb(&mut stage, session, &mut context, UsbEvent::Permission(granted))
    };
    assert_eq!(attempt(&mut session, false), UsbAction::AskPermission(0));
    assert_eq!(attempt(&mut session, false), UsbAction::Finish(None));
    assert_eq!(attempt(&mut session, true), UsbAction::OpenDevice(0));
    assert_eq!(attempt(&mut session, false), UsbAction::AskPermission(0));
}

#[test]
fn the_boot_loader_never_yields_a_descriptor() {
    let mut stage = UsbStage::Opening(0, 0x04b4, 0x00f3);
    let mut session = UsbSession::new();
    let mut context = AndroidUsbContextState::default();
    assert_eq!(
        open_b210_usb(&mut stage, &mut session, &mut context, UsbEvent::Opened(Some(5))),
        UsbAction::LoadFirmware
    );
    assert_eq!(
        open_b210_usb(&mut stage, &mut session, &mut context, UsbEvent::Loaded(true)),
        UsbAction::Finish(None)
    );
    assert_eq!(android_usb_vid(&context), 0);
}

#[test]
fn failures_end_an_attempt() {
    let mut session = UsbSession::new();
    let mut context = AndroidUsbContextState::default();
    for start in [
        UsbStage::Scanning,
        UsbStage::Permission(0, 0x2500, 0x20),
        UsbStage::Opening(0, 0x2500, 0x20),
        UsbStage::Loading,
        UsbStage::Probing(3, 0x2500, 0x20),
    ] {
        let mut stage = start;
        assert_eq!(
            open_b210_usb(&mut stage, &mut session, &mut context, UsbEvent::Failed),
            UsbAction::Finish(None)
        );
        assert_eq!(stage, UsbStage::Over);
    }
    let mut stage = UsbStage::Opening(0, 0x2500, 0x20);
    assert_eq!(
        open_b210_usb(&mut stage, &mut session, &mut context, UsbEvent::Opened(None)),
        UsbAction::Finish(None)
    );
}

#[test]
fn unanswered_probes_leave_firmware_to_the_search() {
    let mut stage = UsbStage::Probing(3, 0x2500, 0x20);
    let mut session = UsbSession::new();
    let mut context = AndroidUsbContextState::default();
    let probed = UsbEvent::Probed(-1, "/somewhere".to_string());
    assert_eq!(
        open_b210_usb(&mut stage, &mut session, &mut context, probed),
        UsbAction::Finish(Some(3))
    );
    assert!(!android_usb_firmware_loaded(&context));
    assert_eq!(android_usbfs_path(&context), "/somewhere");
}

#[test]
fn bytes_are_sent_signed() {
    assert_eq!(signed_bytes(&[0, 127, 128, 255]), vec![0, 127, -128, -1]);
    assert!(reset_accepted(4));
    assert!(!reset_accepted(0));
}
