//! Opening the radio through UHD on an Android USB descriptor.

use crate::android_uhd_context::{
    clear_fd, firmware_loaded, set_fd, set_firmware_loaded, set_ids, set_usbfs_path, usbfs_path,
    AndroidUsbContextState,
};
use crate::text::{chars_of, push_signed_decimal, signed_decimal};
use vstd::prelude::*;
use vstd::string::StringExecFns;

verus! {

/// Tells UHD the USB ids of the device.
pub fn set_android_usb_ids(state: &mut AndroidUsbContextState, vid: u16, pid: u16)
    ensures
        *final(state) == (AndroidUsbContextState { vid, pid, ..*old(state) }),
{
    set_ids(state, vid, pid);
}

/// Tells UHD whether the controller of the device runs its firmware.
pub fn set_android_usb_firmware_loaded(state: &mut AndroidUsbContextState, loaded: bool)
    ensures
        *final(state) == (AndroidUsbContextState { firmware_loaded: loaded, ..*old(state) }),
{
    set_firmware_loaded(state, loaded);
}

/// How many slashes a text starts with.
pub open spec fn leading_slashes(text: Seq<char>) -> int
    decreases text.len(),
{
    if text.len() > 0 && text[0] == '/' {
        1 + leading_slashes(text.drop_first())
    } else {
        0
    }
}

/// Where the text before its trailing slashes ends.
pub open spec fn slashes_end(text: Seq<char>) -> int
    decreases text.len(),
{
    if text.len() > 0 && text.last() == '/' {
        slashes_end(text.drop_last())
    } else {
        text.len() as int
    }
}

/// The text without leading and trailing slashes.
pub open spec fn without_slashes(text: Seq<char>) -> Seq<char> {
    let front = text.skip(leading_slashes(text));
    front.take(slashes_end(front))
}

/// Whether a path names a device below the usual root of the usbfs tree.
pub open spec fn is_usb_node(path: Seq<char>) -> bool {
    "dev/bus/usb/"@.is_prefix_of(without_slashes(path))
}

/// The root of the usbfs tree that a device path lies in: the usual one for a
/// device below it, else the path itself.
pub open spec fn usbfs_root(path: Seq<char>) -> Seq<char> {
    if is_usb_node(path) {
        "/dev/bus/usb"@
    } else {
        path
    }
}

fn names_usb_node(path: &str) -> (b: bool)
    ensures
        b == is_usb_node(path@),
{
    let chars = chars_of(path);
    let prefix = chars_of("dev/bus/usb/");
    let ghost text = chars@;
    let mut from: usize = 0;
    assert(text.skip(0) =~= text);
    while from < chars.len() && chars[from] == '/'
        invariant
            text == chars@,
            from <= text.len(),
            leading_slashes(text) == from + leading_slashes(text.skip(from as int)),
        decreases text.len() - from,
    {
        assert(text.skip(from as int).drop_first() =~= text.skip(from + 1));
        from = from + 1;
    }
    let ghost front = text.skip(from as int);
    let mut to: usize = chars.len();
    assert(front.take(to - from) =~= front);
    while to > from && chars[to - 1] == '/'
        invariant
            text == chars@,
            from <= to <= text.len(),
            front == text.skip(from as int),
            slashes_end(front) == slashes_end(front.take(to - from)),
        decreases to,
    {
        assert(front.take(to - from).drop_last() =~= front.take(to - from - 1));
        to = to - 1;
    }
    let ghost bare = front.take(to - from);
    assert(bare == without_slashes(path@));
    if to - from < prefix.len() {
        return false;
    }
    for i in 0..prefix.len()
        invariant
            text == chars@,
            from <= to <= text.len(),
            front == text.skip(from as int),
            bare == front.take(to - from),
            bare == without_slashes(path@),
            prefix@ == "dev/bus/usb/"@,
            to - from >= prefix@.len(),
            forall|k: int| 0 <= k < i ==> prefix@[k] == bare[k],
    {
        assert(bare[i as int] == chars@[from + i]);
        if prefix[i] != chars[from + i] {
            return false;
        }
    }
    assert(bare.take(prefix@.len() as int) =~= prefix@);
    true
}

/// Finds the root of the usbfs tree for a device path.
pub fn usbfs_root_from_device_name(path: &str) -> (root: String)
    ensures
        root@ == usbfs_root(path@),
{
    if names_usb_node(path) {
        "/dev/bus/usb".to_string()
    } else {
        path.to_string()
    }
}

/// Tells UHD the root of the usbfs tree that the device at `path` lies in.
pub fn set_android_usb_path(state: &mut AndroidUsbContextState, path: &str)
    ensures
        final(state).usbfs_path@ == usbfs_root(path@),
        final(state).fd == old(state).fd,
        final(state).vid == old(state).vid,
        final(state).pid == old(state).pid,
        final(state).firmware_loaded == old(state).firmware_loaded,
{
    set_usbfs_path(state, usbfs_root_from_device_name(path));
}

/// The root of the usbfs tree that UHD is told.
pub fn android_usb_path(state: &AndroidUsbContextState) -> (path: String)
    ensures
        path@ == state.usbfs_path@,
{
    usbfs_path(state)
}

/// The device arguments for a descriptor and a usbfs root.
pub open spec fn device_args(fd: i32, path: Seq<char>) -> Seq<char> {
    "type=b200,fd="@ + signed_decimal(fd as int) + ",usbfs_path="@ + path
}

/// What UHD's search for the device gave.
pub enum FindReply {
    /// So many devices that can be opened.
    Addresses(usize),
    /// An error.
    Failed(String),
}

/// What is to be done to open the radio.
pub enum OpenStep {
    /// Search for the device with these arguments; the search loads the
    /// firmware of the controller.
    Find(String),
    /// Open the device with these arguments.
    Open(String),
}

/// Begins to open the radio on a descriptor: UHD is told the descriptor, and
/// where the controller does not run its firmware yet a search comes first.
pub fn begin_open(state: &mut AndroidUsbContextState, fd: i32) -> (step: OpenStep)
    ensures
        final(state).fd == fd,
        final(state).same_but_fd(*old(state)),
        match step {
            OpenStep::Find(args) => !old(state).firmware_loaded && args@ == device_args(
                fd,
                old(state).usbfs_path@,
            ),
            OpenStep::Open(args) => old(state).firmware_loaded && args@ == device_args(
                fd,
                old(state).usbfs_path@,
            ),
        },
{
    let path = android_usb_path(state);
    let mut args = "type=b200,fd=".to_string();
    push_signed_decimal(&mut args, fd as i64);
    args.append(",usbfs_path=");
    args.append(path.as_str());
    set_fd(state, fd);
    if firmware_loaded(state) {
        OpenStep::Open(args)
    } else {
        OpenStep::Find(args)
    }
}

/// What is reported when a search finds nothing to open.
pub open spec fn nothing_found() -> Seq<char> {
    "UHD find completed with no openable device yet; waiting for USB re-enumeration"@
}

/// Judges the reply to a search: the device is opened where one was found;
/// else the descriptor is withdrawn.
pub fn after_find(state: &mut AndroidUsbContextState, reply: &FindReply) -> (go: Result<(), String>)
    ensures
        match *reply {
            FindReply::Addresses(n) if n > 0 => go is Ok && *final(state) == *old(state),
            FindReply::Addresses(_) => {
                &&& go matches Err(text) && text@ == nothing_found()
                &&& final(state).fd == -1
                &&& final(state).same_but_fd(*old(state))
            },
            FindReply::Failed(e) => {
                &&& go matches Err(text) && text@ == "UHD find failed: "@ + e@
                &&& final(state).fd == -1
                &&& final(state).same_but_fd(*old(state))
            },
        },
{
    match reply {
        FindReply::Addresses(n) => {
            if *n > 0 {
                Ok(())
            } else {
                clear_fd(state);
                Err(
                    "UHD find completed with no openable device yet; waiting for USB re-enumeration".to_string(),
                )
            }
        },
        FindReply::Failed(e) => {
            clear_fd(state);
            let mut text = "UHD find failed: ".to_string();
            text.append(e.as_str());
            Err(text)
        },
    }
}

/// What is reported when the device cannot be opened.
pub fn open_failure(e: &str) -> (text: String)
    ensures
        text@ == "Failed: "@ + e@,
{
    let mut text = "Failed: ".to_string();
    text.append(e);
    text
}

proof fn slashes_are_counted(front: Seq<char>, rest: Seq<char>)
    requires
        forall|i: int| 0 <= i < front.len() ==> #[trigger] front[i] == '/',
        rest.len() == 0 || rest[0] != '/',
    ensures
        leading_slashes(front + rest) == front.len(),
    decreases front.len(),
{
    if front.len() > 0 {
        assert((front + rest).drop_first() =~= front.drop_first() + rest);
        assert forall|i: int| 0 <= i < front.len() - 1 implies #[trigger] front.drop_first()[i]
            == '/' by {
            assert(front.drop_first()[i] == front[i + 1]);
        }
        assert(front[0] == '/');
        slashes_are_counted(front.drop_first(), rest);
    } else {
        assert(front + rest =~= rest);
    }
}

proof fn trailing_slashes_are_counted(rest: Seq<char>, back: Seq<char>)
    requires
        forall|i: int| 0 <= i < back.len() ==> #[trigger] back[i] == '/',
        rest.len() == 0 || rest.last() != '/',
    ensures
        slashes_end(rest + back) == rest.len(),
    decreases back.len(),
{
    if back.len() > 0 {
        assert((rest + back).drop_last() =~= rest + back.drop_last());
        assert((rest + back).last() == back[back.len() - 1]);
        assert forall|i: int| 0 <= i < back.len() - 1 implies #[trigger] back.drop_last()[i]
            == '/' by {
            assert(back.drop_last()[i] == back[i]);
        }
        trailing_slashes_are_counted(rest, back.drop_last());
    } else {
        assert(rest + back =~= rest);
    }
}

/// The root of a device path is the usual one just where the path, whatever
/// slashes it starts and ends with, goes on below `dev/bus/usb`; else it is the
/// path itself.
pub proof fn nodes_lie_below_the_usual_root(front: Seq<char>, bare: Seq<char>, back: Seq<char>)
    requires
        forall|i: int| 0 <= i < front.len() ==> #[trigger] front[i] == '/',
        forall|i: int| 0 <= i < back.len() ==> #[trigger] back[i] == '/',
        bare.len() > 0,
        bare[0] != '/',
        bare.last() != '/',
    ensures
        "dev/bus/usb/"@.is_prefix_of(bare) ==> usbfs_root(front + bare + back) == "/dev/bus/usb"@,
        !"dev/bus/usb/"@.is_prefix_of(bare) ==> usbfs_root(front + bare + back) == front + bare
            + back,
{
    let path = front + bare + back;
    let rest = bare + back;
    assert(path =~= front + rest);
    slashes_are_counted(front, rest);
    assert(path.skip(front.len() as int) =~= rest);
    trailing_slashes_are_counted(bare, back);
    assert(rest.take(bare.len() as int) =~= bare);
    assert(without_slashes(path) == bare);
}

/// The device arguments name the kind of device, the descriptor, which reads
/// back, and the path, which comes last.
pub proof fn arguments_name_descriptor_and_path(fd: i32, path: Seq<char>)
    ensures
        device_args(fd, path) == "type=b200,fd="@ + (signed_decimal(fd as int) + (",usbfs_path="@
            + path)),
        device_args(fd, path).len() == "type=b200,fd="@.len() + signed_decimal(fd as int).len()
            + ",usbfs_path="@.len() + path.len(),
        path.is_suffix_of(device_args(fd, path)),
{
    let args = device_args(fd, path);
    assert(args =~= "type=b200,fd="@ + (signed_decimal(fd as int) + (",usbfs_path="@ + path)));
    assert(args.subrange(args.len() - path.len(), args.len() as int) =~= path);
}

} // verus!
