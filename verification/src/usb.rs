//! Finding and taking over the radio's USB device.

use crate::android_uhd_context::AndroidUsbContextState;
use crate::uhd_wrapper::{
    set_android_usb_firmware_loaded, set_android_usb_ids, set_android_usb_path, usbfs_root,
};
use vstd::prelude::*;

verus! {

pub const VID_ETTUS: i32 = 0x2500;

pub const PID_B200_B210: i32 = 0x0020;

pub const VID_CYPRESS: i32 = 0x04b4;

pub const PID_FX3_BOOTLOADER: i32 = 0x00f3;

/// Type of a vendor request that reads.
pub const READ_REQUEST_TYPE: i32 = 0xc0;

/// The vendor request that asks running firmware for its version.
pub const GET_COMPAT_REQUEST: i32 = 0x15;

/// How many bytes running firmware answers with.
pub const GET_COMPAT_LEN: i32 = 2;

/// The vendor request that resets the controller into its boot loader.
pub const RESET_REQUEST: i32 = 0x99;

/// How many bytes the reset request carries.
pub const RESET_LEN: i32 = 4;

/// How long a request may take, in milliseconds.
pub const REQUEST_TIMEOUT_MS: i32 = 1000;

/// Whether the ids are those of the radio.
pub open spec fn is_radio(vid: i32, pid: i32) -> bool {
    vid == 0x2500 && pid == 0x0020
}

/// Whether the ids are those of the radio's controller in its boot loader.
pub open spec fn is_bootloader(vid: i32, pid: i32) -> bool {
    vid == 0x04b4 && pid == 0x00f3
}

/// Whether the ids are those of the radio, with or without its firmware.
pub fn is_b210_related(vid: i32, pid: i32) -> (related: bool)
    ensures
        related == (is_radio(vid, pid) || is_bootloader(vid, pid)),
{
    (vid == VID_ETTUS && pid == PID_B200_B210) || (vid == VID_CYPRESS && pid == PID_FX3_BOOTLOADER)
}

/// Whether entry `i` of a list of USB ids is the first of the radio.
pub open spec fn first_related(devices: Seq<(i32, i32)>, i: int) -> bool {
    &&& 0 <= i < devices.len()
    &&& is_radio(devices[i].0, devices[i].1) || is_bootloader(devices[i].0, devices[i].1)
    &&& forall|k: int|
        0 <= k < i ==> !is_radio((#[trigger] devices[k]).0, devices[k].1) && !is_bootloader(
            devices[k].0,
            devices[k].1,
        )
}

/// Picks the first device that is the radio from the ids of those attached.
pub fn pick_device(devices: &[(i32, i32)]) -> (picked: Option<usize>)
    ensures
        match picked {
            Some(i) => first_related(devices@, i as int),
            None => forall|i: int| !first_related(devices@, i),
        },
{
    for i in 0..devices.len()
        invariant
            forall|k: int|
                0 <= k < i ==> !is_radio((#[trigger] devices@[k]).0, devices@[k].1)
                    && !is_bootloader(devices@[k].0, devices@[k].1),
    {
        let (vid, pid): (i32, i32) = devices[i];
        if is_b210_related(vid, pid) {
            return Some(i);
        }
    }
    None
}

/// What is to be done about the permission to use a device.
#[derive(Clone, Copy, PartialEq, Eq, Structural, Debug)]
pub enum PermissionStep {
    /// It is granted: the device can be opened.
    Proceed,
    /// It is to be asked for.
    Ask,
    /// It was asked for: the answer is waited for.
    Wait,
}

/// What is to be done with a device after it was opened.
#[derive(Clone, Copy, PartialEq, Eq, Structural, Debug)]
pub enum DeviceStep {
    /// Nothing: it could not be opened.
    GiveUp,
    /// Firmware is to be loaded; the device then comes back as another.
    LoadFirmware,
    /// Its firmware is to be probed.
    Probe,
}

/// What is remembered from one attempt to take over the device to the next.
#[derive(Clone, Copy, PartialEq, Eq, Structural, Debug)]
pub struct UsbSession {
    /// Whether permission was asked for and not granted yet.
    pub permission_requested: bool,
    /// Whether the controller was asked to reset.
    pub reset_requested: bool,
}

impl UsbSession {
    /// A session in which nothing was asked for.
    pub fn new() -> (session: Self)
        ensures
            !session.permission_requested,
            !session.reset_requested,
    {
        UsbSession { permission_requested: false, reset_requested: false }
    }

    /// Decides about permission. It is asked for once, until it is granted.
    pub fn permission(&mut self, granted: bool) -> (step: PermissionStep)
        ensures
            step == if granted {
                PermissionStep::Proceed
            } else if old(self).permission_requested {
                PermissionStep::Wait
            } else {
                PermissionStep::Ask
            },
            *final(self) == (UsbSession { permission_requested: !granted, ..*old(self) }),
    {
        if granted {
            self.permission_requested = false;
            PermissionStep::Proceed
        } else if self.permission_requested {
            PermissionStep::Wait
        } else {
            self.permission_requested = true;
            PermissionStep::Ask
        }
    }

    /// Hands a device over to UHD: it is told the ids, whether the firmware
    /// runs, and the root of the usbfs tree. Firmware runs where it answered
    /// the probe in full.
    pub fn hand_over(
        &mut self,
        context: &mut AndroidUsbContextState,
        vid: i32,
        pid: i32,
        probe_reply: i32,
        device_name: &str,
    ) -> (loaded: bool)
        requires
            is_radio(vid, pid) || is_bootloader(vid, pid),
        ensures
            loaded == (probe_reply == 2),
            *final(self) == (UsbSession { reset_requested: false, ..*old(self) }),
            final(context).vid == vid,
            final(context).pid == pid,
            final(context).firmware_loaded == loaded,
            final(context).usbfs_path@ == usbfs_root(device_name@),
            final(context).fd == old(context).fd,
    {
        let loaded = probe_reply == GET_COMPAT_LEN;
        self.reset_requested = false;
        set_android_usb_ids(context, vid as u16, pid as u16);
        set_android_usb_firmware_loaded(context, loaded);
        set_android_usb_path(context, device_name);
        loaded
    }
}

/// Decides what is done with a device after the attempt to open it.
pub fn after_open(vid: i32, pid: i32, opened: bool) -> (step: DeviceStep)
    ensures
        step == if !opened {
            DeviceStep::GiveUp
        } else if is_bootloader(vid, pid) {
            DeviceStep::LoadFirmware
        } else {
            DeviceStep::Probe
        },
{
    if !opened {
        DeviceStep::GiveUp
    } else if vid == VID_CYPRESS && pid == PID_FX3_BOOTLOADER {
        DeviceStep::LoadFirmware
    } else {
        DeviceStep::Probe
    }
}

/// Whether the controller accepted the request to reset.
pub fn reset_accepted(reply: i32) -> (accepted: bool)
    ensures
        accepted == (reply == 4),
{
    reply == RESET_LEN
}

/// A byte as a signed one.
pub open spec fn as_signed(b: u8) -> int {
    if b < 128 {
        b as int
    } else {
        b - 256
    }
}

/// The bytes of a request as the signed bytes of the Java interface.
pub fn signed_bytes(data: &[u8]) -> (signed: Vec<i8>)
    ensures
        signed@.len() == data@.len(),
        forall|i: int| 0 <= i < data@.len() ==> #[trigger] signed@[i] == as_signed(data@[i]),
{
    let mut signed: Vec<i8> = Vec::with_capacity(data.len());
    for i in 0..data.len()
        invariant
            signed@.len() == i,
            forall|k: int| 0 <= k < i ==> #[trigger] signed@[k] == as_signed(data@[k]),
    {
        let b: u8 = data[i];
        let s: i8 = if b < 128 {
            b as i8
        } else {
            (b as i16 - 256) as i8
        };
        signed.push(s);
    }
    signed
}

/// How far an attempt to take over the device has come.
#[derive(Clone, Copy, PartialEq, Eq, Structural, Debug)]
pub enum UsbStage {
    /// The attached devices are to be listed.
    Scanning,
    /// Permission to use the device with this index and these ids is looked up.
    Permission(usize, i32, i32),
    /// The device is to be opened.
    Opening(usize, i32, i32),
    /// Firmware is being loaded.
    Loading,
    /// The firmware of the device, open on a descriptor, is probed.
    Probing(i32, i32, i32),
    /// The attempt is over.
    Over,
}

/// What the system reports to an attempt.
pub enum UsbEvent {
    /// The ids of the attached devices.
    Devices(Vec<(i32, i32)>),
    /// Whether permission is granted.
    Permission(bool),
    /// The descriptor of the opened device, if it was opened.
    Opened(Option<i32>),
    /// Whether firmware was loaded.
    Loaded(bool),
    /// The reply to the probe and the name of the device.
    Probed(i32, String),
    /// A call into the system failed.
    Failed,
}

/// What an attempt asks the system for.
#[derive(Clone, Copy, PartialEq, Eq, Structural, Debug)]
pub enum UsbAction {
    /// Look up the permission for the device with this index.
    LookUpPermission(usize),
    /// Ask the user for permission for the device with this index; the attempt
    /// is over without a descriptor.
    AskPermission(usize),
    /// Open the device with this index.
    OpenDevice(usize),
    /// Load firmware.
    LoadFirmware,
    /// Probe the firmware.
    Probe,
    /// The attempt is over, with or without a descriptor.
    Finish(Option<i32>),
}

/// What an attempt does on an event; an event out of turn ends it without a
/// descriptor.
pub open spec fn usb_step(stage: UsbStage, session: UsbSession, event: UsbEvent) -> (
    UsbStage,
    UsbSession,
    UsbAction,
) {
    let gone = (UsbStage::Over, session, UsbAction::Finish(None));
    match (stage, event) {
        (UsbStage::Scanning, UsbEvent::Devices(list)) => if exists|i: int|
            first_related(list@, i) {
            let i = choose|i: int| first_related(list@, i);
            (
                UsbStage::Permission(i as usize, list@[i].0, list@[i].1),
                session,
                UsbAction::LookUpPermission(i as usize),
            )
        } else {
            gone
        },
        (UsbStage::Permission(i, vid, pid), UsbEvent::Permission(granted)) => {
            let after = UsbSession { permission_requested: !granted, ..session };
            if granted {
                (UsbStage::Opening(i, vid, pid), after, UsbAction::OpenDevice(i))
            } else if session.permission_requested {
                (UsbStage::Over, after, UsbAction::Finish(None))
            } else {
                (UsbStage::Over, after, UsbAction::AskPermission(i))
            }
        },
        (UsbStage::Opening(i, vid, pid), UsbEvent::Opened(Some(fd))) => if is_bootloader(
            vid,
            pid,
        ) {
            (UsbStage::Loading, session, UsbAction::LoadFirmware)
        } else {
            (UsbStage::Probing(fd, vid, pid), session, UsbAction::Probe)
        },
        (UsbStage::Probing(fd, vid, pid), UsbEvent::Probed(reply, name)) => (
            UsbStage::Over,
            UsbSession { reset_requested: false, ..session },
            UsbAction::Finish(Some(fd)),
        ),
        _ => gone,
    }
}

/// Whether the ids that a stage speaks of are those of the radio.
pub open spec fn stage_valid(stage: UsbStage) -> bool {
    match stage {
        UsbStage::Permission(_, vid, pid) => is_radio(vid, pid) || is_bootloader(vid, pid),
        UsbStage::Opening(_, vid, pid) => is_radio(vid, pid) || is_bootloader(vid, pid),
        UsbStage::Probing(_, vid, pid) => is_radio(vid, pid),
        _ => true,
    }
}

proof fn first_related_is_unique(devices: Seq<(i32, i32)>, i: int, j: int)
    requires
        first_related(devices, i),
        first_related(devices, j),
    ensures
        i == j,
{
    assert(devices[i] == devices[i]);
    assert(devices[j] == devices[j]);
}

/// Takes one step towards the radio's USB descriptor. UHD is told about the
/// device where its firmware was probed, and nothing otherwise.
pub fn open_b210_usb(
    stage: &mut UsbStage,
    session: &mut UsbSession,
    context: &mut AndroidUsbContextState,
    event: UsbEvent,
) -> (action: UsbAction)
    requires
        stage_valid(*old(stage)),
    ensures
        stage_valid(*final(stage)),
        (*final(stage), *final(session), action) == usb_step(*old(stage), *old(session), event),
        match (*old(stage), event) {
            (UsbStage::Probing(_, vid, pid), UsbEvent::Probed(reply, name)) => {
                &&& final(context).vid == vid
                &&& final(context).pid == pid
                &&& final(context).firmware_loaded == (reply == 2)
                &&& final(context).usbfs_path@ == usbfs_root(name@)
                &&& final(context).fd == old(context).fd
            },
            _ => *final(context) == *old(context),
        },
{
    let now = *stage;
    *stage = UsbStage::Over;
    match (now, event) {
        (UsbStage::Scanning, UsbEvent::Devices(list)) => {
            match pick_device(list.as_slice()) {
                None => UsbAction::Finish(None),
                Some(i) => {
                    proof {
                        let k = choose|k: int| first_related(list@, k);
                        first_related_is_unique(list@, i as int, k);
                    }
                    let (vid, pid): (i32, i32) = list[i];
                    *stage = UsbStage::Permission(i, vid, pid);
                    UsbAction::LookUpPermission(i)
                },
            }
        },
        (UsbStage::Permission(i, vid, pid), UsbEvent::Permission(granted)) => {
            match session.permission(granted) {
                PermissionStep::Proceed => {
                    *stage = UsbStage::Opening(i, vid, pid);
                    UsbAction::OpenDevice(i)
                },
                PermissionStep::Ask => UsbAction::AskPermission(i),
                PermissionStep::Wait => UsbAction::Finish(None),
            }
        },
        (UsbStage::Opening(_, vid, pid), UsbEvent::Opened(opened)) => {
            match (after_open(vid, pid, opened.is_some()), opened) {
                (DeviceStep::LoadFirmware, _) => {
                    *stage = UsbStage::Loading;
                    UsbAction::LoadFirmware
                },
                (DeviceStep::Probe, Some(fd)) => {
                    *stage = UsbStage::Probing(fd, vid, pid);
                    UsbAction::Probe
                },
                _ => UsbAction::Finish(None),
            }
        },
        (UsbStage::Probing(fd, vid, pid), UsbEvent::Probed(reply, name)) => {
            session.hand_over(context, vid, pid, reply, name.as_str());
            UsbAction::Finish(Some(fd))
        },
        _ => UsbAction::Finish(None),
    }
}

/// A descriptor is only handed out for the radio with its firmware: an attempt
/// ends with one only when the device that was opened on it was probed, and
/// that device is not the boot loader.
pub proof fn descriptor_needs_a_probe(
    stage: UsbStage,
    session: UsbSession,
    event: UsbEvent,
    fd: i32,
)
    requires
        stage_valid(stage),
        usb_step(stage, session, event).2 == UsbAction::Finish(Some(fd)),
    ensures
        event is Probed,
        stage matches UsbStage::Probing(open_fd, vid, pid) && open_fd == fd && is_radio(vid, pid),
{
}

/// Permission is asked for once: after it was asked for, no attempt asks again
/// until it was granted.
pub proof fn permission_is_asked_for_once(stage: UsbStage, session: UsbSession, event: UsbEvent)
    requires
        session.permission_requested,
    ensures
        !(usb_step(stage, session, event).2 is AskPermission),
        event !== UsbEvent::Permission(true) ==> usb_step(
            stage,
            session,
            event,
        ).1.permission_requested,
{
}

/// The radio is known by its vendor and product ids, and by those that its
/// controller has in the boot loader.
pub proof fn radios_are_known_by_their_ids(vid: i32, pid: i32)
    ensures
        vid == 0x2500 && pid == 0x20 ==> is_radio(vid, pid) && !is_bootloader(vid, pid),
        vid == 0x04b4 && pid == 0xf3 ==> is_bootloader(vid, pid) && !is_radio(vid, pid),
        vid != 0x2500 || pid != 0x20 ==> !is_radio(vid, pid),
        vid != 0x04b4 || pid != 0xf3 ==> !is_bootloader(vid, pid),
{
}

/// An attempt takes the first attached device that is the radio, and looks up
/// the permission for it; it is over where there is none.
pub proof fn first_radio_is_taken(
    session: UsbSession,
    event: UsbEvent,
    list: Vec<(i32, i32)>,
    i: int,
)
    requires
        event == UsbEvent::Devices(list),
        list@.len() <= usize::MAX,
    ensures
        ({
            let step = usb_step(UsbStage::Scanning, session, event);
            let known = |d: (i32, i32)|
                (d.0 == 0x2500 && d.1 == 0x20) || (d.0 == 0x04b4 && d.1 == 0xf3);
            &&& step.1 == session
            &&& 0 <= i < list@.len() && known(list@[i]) && (forall|k: int|
                0 <= k < i ==> !known(#[trigger] list@[k])) ==> step.0 == UsbStage::Permission(
                i as usize,
                list@[i].0,
                list@[i].1,
            ) && step.2 == UsbAction::LookUpPermission(i as usize)
            &&& (forall|k: int| 0 <= k < list@.len() ==> !known(#[trigger] list@[k])) ==> step.0
                is Over && step.2 == UsbAction::Finish(None)
        }),
{
    let known = |d: (i32, i32)|
        (d.0 == 0x2500 && d.1 == 0x20) || (d.0 == 0x04b4 && d.1 == 0xf3);
    if 0 <= i < list@.len() && known(list@[i]) && (forall|k: int|
        0 <= k < i ==> !known(#[trigger] list@[k])) {
        assert(first_related(list@, i)) by {
            assert forall|k: int| 0 <= k < i implies !is_radio(
                (#[trigger] list@[k]).0,
                list@[k].1,
            ) && !is_bootloader(list@[k].0, list@[k].1) by {
                assert(!known(list@[k]));
            }
        }
        let j = choose|j: int| first_related(list@, j);
        first_related_is_unique(list@, i, j);
    }
    if forall|k: int| 0 <= k < list@.len() ==> !known(#[trigger] list@[k]) {
        assert forall|j: int| !first_related(list@, j) by {
            if first_related(list@, j) {
                assert(!known(list@[j]));
            }
        }
    }
}

/// A device is opened once permission is granted. Without it the user is asked,
/// unless that was done before, and the attempt is over. Granted or not, that
/// is remembered.
pub proof fn permission_comes_before_opening(
    session: UsbSession,
    i: usize,
    vid: i32,
    pid: i32,
    granted: bool,
)
    ensures
        ({
            let step = usb_step(
                UsbStage::Permission(i, vid, pid),
                session,
                UsbEvent::Permission(granted),
            );
            &&& granted ==> step.0 == UsbStage::Opening(i, vid, pid) && step.2
                == UsbAction::OpenDevice(i) && !step.1.permission_requested
            &&& !granted && !session.permission_requested ==> step.0 is Over && step.2
                == UsbAction::AskPermission(i) && step.1.permission_requested
            &&& !granted && session.permission_requested ==> step.0 is Over && step.2
                == UsbAction::Finish(None) && step.1.permission_requested
            &&& step.1.reset_requested == session.reset_requested
        }),
{
}

/// What an opened device leads to: the boot loader is given firmware, after which
/// the attempt is over, since the device comes back as another; the radio is
/// probed, and its descriptor handed out. A device that was not opened ends the
/// attempt, and so does whatever comes out of turn.
pub proof fn opened_devices_are_probed_or_loaded(
    session: UsbSession,
    i: usize,
    vid: i32,
    pid: i32,
    fd: i32,
    loaded: bool,
    probed: UsbEvent,
)
    requires
        probed is Probed,
    ensures
        ({
            let stage = UsbStage::Opening(i, vid, pid);
            let opened = usb_step(stage, session, UsbEvent::Opened(Some(fd)));
            let refused = usb_step(stage, session, UsbEvent::Opened(None));
            let probing = usb_step(UsbStage::Probing(fd, vid, pid), session, probed);
            &&& vid == 0x04b4 && pid == 0xf3 ==> opened.0 is Loading && opened.2
                is LoadFirmware
            &&& vid != 0x04b4 || pid != 0xf3 ==> opened.0 == UsbStage::Probing(fd, vid, pid)
                && opened.2 is Probe
            &&& opened.1 == session
            &&& refused.0 is Over && refused.2 == UsbAction::Finish(None) && refused.1 == session
            &&& probing.0 is Over && probing.2 == UsbAction::Finish(Some(fd))
            &&& !probing.1.reset_requested && probing.1.permission_requested
                == session.permission_requested
            &&& usb_step(UsbStage::Loading, session, UsbEvent::Loaded(loaded)).2
                == UsbAction::Finish(None)
        }),
{
}

/// A call into the system that fails ends any attempt, and leaves the session as
/// it is; so does anything after the end.
pub proof fn failures_end_an_attempt(stage: UsbStage, session: UsbSession, event: UsbEvent)
    requires
        event is Failed || stage is Over,
    ensures
        usb_step(stage, session, event).0 is Over,
        usb_step(stage, session, event).1 == session,
        usb_step(stage, session, event).2 == UsbAction::Finish(None),
{
}

/// A signed byte is the byte itself or 256 less, whichever fits.
pub proof fn signed_bytes_stand_for_bytes(b: u8)
    ensures
        -128 <= as_signed(b) <= 127,
        as_signed(b) == b || as_signed(b) == b - 256,
{
}

} // verus!
