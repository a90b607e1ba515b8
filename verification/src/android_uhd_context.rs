//! The Android USB context that is injected into UHD.
//!
//! The application keeps one [`AndroidUsbContextState`] behind a lock; UHD
//! reads it through the accessors. A negative descriptor tells UHD that no
//! authorised device is there and that it has to enumerate devices itself.

use vstd::prelude::*;

verus! {

/// What UHD is told about the Android USB device.
#[derive(Clone, Debug)]
pub struct AndroidUsbContextState {
    /// Descriptor of the open device connection, negative for none.
    pub fd: isize,
    /// Root of the usbfs tree.
    pub usbfs_path: String,
    /// USB vendor id.
    pub vid: u16,
    /// USB product id.
    pub pid: u16,
    /// Whether the FX3 controller already runs its firmware.
    pub firmware_loaded: bool,
}

impl AndroidUsbContextState {
    /// Whether no device is injected.
    pub open spec fn is_empty(self) -> bool {
        self.fd < 0
    }

    /// Whether `self` and `other` agree but for the descriptor.
    pub open spec fn same_but_fd(self, other: Self) -> bool {
        &&& self.usbfs_path == other.usbfs_path
        &&& self.vid == other.vid
        &&& self.pid == other.pid
        &&& self.firmware_loaded == other.firmware_loaded
    }
}

impl Default for AndroidUsbContextState {
    fn default() -> (state: Self)
        ensures
            state.fd == -1,
            state.usbfs_path@ == "/dev/bus/usb"@,
            state.vid == 0,
            state.pid == 0,
            !state.firmware_loaded,
            state.is_empty(),
    {
        AndroidUsbContextState {
            fd: -1,
            usbfs_path: "/dev/bus/usb".to_string(),
            vid: 0,
            pid: 0,
            firmware_loaded: false,
        }
    }
}

/// Records the USB ids of the device.
pub fn set_ids(state: &mut AndroidUsbContextState, vid: u16, pid: u16)
    ensures
        *final(state) == (AndroidUsbContextState { vid, pid, ..*old(state) }),
{
    state.vid = vid;
    state.pid = pid;
}

/// Records whether the FX3 firmware is running.
pub fn set_firmware_loaded(state: &mut AndroidUsbContextState, loaded: bool)
    ensures
        *final(state) == (AndroidUsbContextState { firmware_loaded: loaded, ..*old(state) }),
{
    state.firmware_loaded = loaded;
}

/// Records the root of the usbfs tree.
pub fn set_usbfs_path(state: &mut AndroidUsbContextState, path: String)
    ensures
        *final(state) == (AndroidUsbContextState { usbfs_path: path, ..*old(state) }),
{
    state.usbfs_path = path;
}

/// Injects the descriptor of an open device connection.
pub fn set_fd(state: &mut AndroidUsbContextState, fd: i32)
    ensures
        final(state).fd == fd,
        final(state).same_but_fd(*old(state)),
        final(state).is_empty() <==> fd < 0,
{
    state.fd = fd as isize;
}

/// Withdraws the device: UHD goes back to its own enumeration.
pub fn clear_fd(state: &mut AndroidUsbContextState)
    ensures
        final(state).fd == -1,
        final(state).same_but_fd(*old(state)),
        final(state).is_empty(),
{
    state.fd = -1;
}

/// Whether the FX3 firmware is recorded as running.
pub fn firmware_loaded(state: &AndroidUsbContextState) -> (loaded: bool)
    ensures
        loaded == state.firmware_loaded,
{
    state.firmware_loaded
}

/// The recorded root of the usbfs tree.
pub fn usbfs_path(state: &AndroidUsbContextState) -> (path: String)
    ensures
        path@ == state.usbfs_path@,
{
    state.usbfs_path.clone()
}

/// The descriptor as UHD reads it.
pub fn android_usb_fd(state: &AndroidUsbContextState) -> (fd: isize)
    ensures
        fd == state.fd,
{
    state.fd
}

/// The usbfs root as UHD reads it.
pub fn android_usbfs_path(state: &AndroidUsbContextState) -> (path: String)
    ensures
        path@ == state.usbfs_path@,
{
    state.usbfs_path.clone()
}

/// The vendor id as UHD reads it.
pub fn android_usb_vid(state: &AndroidUsbContextState) -> (vid: u16)
    ensures
        vid == state.vid,
{
    state.vid
}

/// The product id as UHD reads it.
pub fn android_usb_pid(state: &AndroidUsbContextState) -> (pid: u16)
    ensures
        pid == state.pid,
{
    state.pid
}

/// The firmware state as UHD reads it.
pub fn android_usb_firmware_loaded(state: &AndroidUsbContextState) -> (loaded: bool)
    ensures
        loaded == state.firmware_loaded,
{
    state.firmware_loaded
}

/// Every descriptor from zero on is one, and no other.
pub proof fn negative_descriptors_are_none(state: AndroidUsbContextState)
    ensures
        state.fd >= 0 ==> !state.is_empty(),
        state.fd <= -1 ==> state.is_empty(),
{
}

/// Contexts that agree but for the descriptor are the same once they have the
/// same one, and only they are.
pub proof fn contexts_differ_in_the_descriptor(
    a: AndroidUsbContextState,
    b: AndroidUsbContextState,
)
    ensures
        a.same_but_fd(b) <==> (AndroidUsbContextState { fd: b.fd, ..a }) == b,
        a.same_but_fd(b) <==> b.same_but_fd(a),
{
}

} // verus!
