use vstd::prelude::*;
use vstd::string::StrSliceExecFns;

use crate::history::ScanHistory;

verus! {

/// Length of a textual hardware identifier, separators included.
pub const MAC_LEN: usize = 17;

/// A stable hardware identifier for one device: a fixed-length string such
/// as `aa:bb:cc:dd:ee:ff`. The length is checked at construction; the value
/// is immutable afterwards and keys the registry.
pub struct MacAddr {
    text: String,
}

impl View for MacAddr {
    type V = Seq<char>;

    closed spec fn view(&self) -> Seq<char> {
        self.text@
    }
}

impl MacAddr {
    /// Build an identifier from a string of exactly `MAC_LEN` characters.
    pub fn new(mac: &str) -> (m: MacAddr)
        requires
            mac@.len() == MAC_LEN,
        ensures
            m@ == mac@,
    {
        MacAddr { text: mac.to_owned() }
    }

    /// Build an identifier, rejecting a string of the wrong length.
    pub fn try_new(mac: &str) -> (m: Option<MacAddr>)
        ensures
            m is Some <==> mac@.len() == MAC_LEN,
            m matches Some(inner) ==> inner@ == mac@,
    {
        if mac.unicode_len() == MAC_LEN {
            Some(MacAddr { text: mac.to_owned() })
        } else {
            None
        }
    }

    /// The identifier's text.
    pub fn as_str(&self) -> (s: &str)
        ensures
            s@ == self@,
    {
        self.text.as_str()
    }

    /// Whether two identifiers name the same device.
    pub fn same_as(&self, other: &MacAddr) -> (r: bool)
        ensures
            r == (self@ == other@),
    {
        self.text == other.text
    }
}

impl Clone for MacAddr {
    fn clone(&self) -> (m: Self)
        ensures
            m == *self,
    {
        MacAddr { text: self.text.clone() }
    }
}

/// What one scan round reports about a device. The address and label may
/// change from round to round; the identifier may not.
pub struct Device {
    pub mac: MacAddr,
    /// The device's current network address, as its four octets.
    pub ip: [u8; 4],
    /// Descriptive label (vendor), possibly empty.
    pub vendor: String,
}

/// Mathematical image of a `Device`.
pub ghost struct DeviceView {
    pub mac: Seq<char>,
    pub ip: [u8; 4],
    pub vendor: Seq<char>,
}

impl View for Device {
    type V = DeviceView;

    open spec fn view(&self) -> DeviceView {
        DeviceView { mac: self.mac@, ip: self.ip, vendor: self.vendor@ }
    }
}

impl Clone for Device {
    fn clone(&self) -> (d: Self)
        ensures
            d == *self,
    {
        Device { mac: self.mac.clone(), ip: self.ip, vendor: self.vendor.clone() }
    }
}

/// Everything the registry keeps about one device: the latest observation,
/// when it was last seen, the current belief, and the sample window.
pub struct DeviceState {
    pub device: Device,
    /// Timestamp of the last round that observed the device.
    pub last_seen: i64,
    /// The current debounced belief: `true` means online.
    pub is_connected: bool,
    pub ping_history: ScanHistory,
}

/// Mathematical image of a `DeviceState`.
pub ghost struct DeviceStateView {
    pub device: DeviceView,
    pub last_seen: i64,
    pub is_connected: bool,
    pub history: Seq<bool>,
}

impl View for DeviceState {
    type V = DeviceStateView;

    open spec fn view(&self) -> DeviceStateView {
        DeviceStateView {
            device: self.device@,
            last_seen: self.last_seen,
            is_connected: self.is_connected,
            history: self.ping_history@,
        }
    }
}

impl DeviceState {
    /// The state recorded the first time a device is ever observed: an
    /// optimistic online belief and an empty window.
    pub fn new(device: Device, now: i64) -> (st: DeviceState)
        ensures
            st@.device == device@,
            st@.last_seen == now,
            st@.is_connected,
            st@.history == Seq::<bool>::empty(),
    {
        DeviceState { device, last_seen: now, is_connected: true, ping_history: ScanHistory::new() }
    }
}

/// One edge-triggered notification: the device whose belief flipped, and
/// the new belief.
pub struct NotificationEvent {
    pub device: Device,
    pub became_online: bool,
}

/// Mathematical image of a `NotificationEvent`.
pub ghost struct EventView {
    pub device: DeviceView,
    pub became_online: bool,
}

impl View for NotificationEvent {
    type V = EventView;

    open spec fn view(&self) -> EventView {
        EventView { device: self.device@, became_online: self.became_online }
    }
}

} // verus!
