//! What the host is attached to, and the decisions that keep that picture
//! current as interface and permission updates arrive. The platform calls
//! that produce those updates stand outside the library; they hand it plain
//! values.
use vstd::prelude::*;
use vstd::string::*;

verus! {

/// The network the host is attached to.
#[derive(Debug, PartialEq, Eq)]
pub enum NetworkInfo {
    WiFi { ssid: String, interface: String },
    Cellular { interface: String },
    Wired { interface: String },
    Unknown,
}

/// The same picture in the shape that is sent to the user interface.
#[derive(Debug, PartialEq, Eq)]
pub enum NetworkEvent {
    WiFi { ssid: String, interface: String },
    Wired { interface: String },
    Cellular { interface: String },
    Unknown,
}

/// The mathematical value of both `NetworkInfo` and `NetworkEvent`.
pub enum NetworkView {
    WiFi { ssid: Seq<char>, interface: Seq<char> },
    Cellular { interface: Seq<char> },
    Wired { interface: Seq<char> },
    Unknown,
}

impl View for NetworkInfo {
    type V = NetworkView;

    open spec fn view(&self) -> NetworkView {
        match self {
            NetworkInfo::WiFi { ssid, interface } => NetworkView::WiFi {
                ssid: ssid@,
                interface: interface@,
            },
            NetworkInfo::Cellular { interface } => NetworkView::Cellular { interface: interface@ },
            NetworkInfo::Wired { interface } => NetworkView::Wired { interface: interface@ },
            NetworkInfo::Unknown => NetworkView::Unknown,
        }
    }
}

impl View for NetworkEvent {
    type V = NetworkView;

    open spec fn view(&self) -> NetworkView {
        match self {
            NetworkEvent::WiFi { ssid, interface } => NetworkView::WiFi {
                ssid: ssid@,
                interface: interface@,
            },
            NetworkEvent::Cellular { interface } => NetworkView::Cellular {
                interface: interface@,
            },
            NetworkEvent::Wired { interface } => NetworkView::Wired { interface: interface@ },
            NetworkEvent::Unknown => NetworkView::Unknown,
        }
    }
}

/// The kind of a network interface, as the platform reports it.
#[derive(Clone, Copy, Debug, PartialEq, Eq, Structural)]
pub enum InterfaceKind {
    WiFi,
    Cellular,
    Wired,
    Other,
}

/// The location permission's state, as the platform reports it.
#[derive(Clone, Copy, Debug, PartialEq, Eq, Structural)]
pub enum AuthorizationStatus {
    NotDetermined,
    Restricted,
    Denied,
    AuthorizedAlways,
    AuthorizedWhenInUse,
}

impl InterfaceKind {
    /// Whether the interface is a WiFi one, whose network name is looked up.
    pub fn is_wifi(&self) -> (r: bool)
        ensures
            r == (*self == InterfaceKind::WiFi),
    {
        match self {
            InterfaceKind::WiFi => true,
            _ => false,
        }
    }
}

/// Whether `s` lets the host read the WiFi network's name.
pub open spec fn grants(s: AuthorizationStatus) -> bool {
    s == AuthorizationStatus::AuthorizedAlways || s == AuthorizationStatus::AuthorizedWhenInUse
}

/// Whether the host is on WiFi whose network name is not known yet.
pub open spec fn ssid_unknown(v: NetworkView) -> bool {
    match v {
        NetworkView::WiFi { ssid, .. } => ssid.len() == 0,
        _ => false,
    }
}

/// The picture that an interface of kind `kind` named `name` gives, with
/// `ssid` the name of the WiFi network it is on.
pub open spec fn interface_view(kind: InterfaceKind, name: Seq<char>, ssid: Seq<char>) -> NetworkView {
    match kind {
        InterfaceKind::WiFi => NetworkView::WiFi { ssid, interface: name },
        InterfaceKind::Cellular => NetworkView::Cellular { interface: name },
        InterfaceKind::Wired => NetworkView::Wired { interface: name },
        InterfaceKind::Other => NetworkView::Unknown,
    }
}

impl NetworkInfo {
    /// A copy of this picture.
    pub fn duplicate(&self) -> (r: NetworkInfo)
        ensures
            r@ == self@,
    {
        match self {
            NetworkInfo::WiFi { ssid, interface } => NetworkInfo::WiFi {
                ssid: ssid.clone(),
                interface: interface.clone(),
            },
            NetworkInfo::Cellular { interface } => NetworkInfo::Cellular {
                interface: interface.clone(),
            },
            NetworkInfo::Wired { interface } => NetworkInfo::Wired { interface: interface.clone() },
            NetworkInfo::Unknown => NetworkInfo::Unknown,
        }
    }

    /// The picture that an interface of kind `kind` named `name` gives;
    /// `ssid` counts only for WiFi.
    pub fn from_interface(kind: InterfaceKind, name: String, ssid: String) -> (r: NetworkInfo)
        ensures
            r@ == interface_view(kind, name@, ssid@),
    {
        match kind {
            InterfaceKind::WiFi => NetworkInfo::WiFi { ssid, interface: name },
            InterfaceKind::Cellular => NetworkInfo::Cellular { interface: name },
            InterfaceKind::Wired => NetworkInfo::Wired { interface: name },
            InterfaceKind::Other => NetworkInfo::Unknown,
        }
    }
}

impl Default for NetworkInfo {
    /// Nothing is known yet.
    fn default() -> (r: NetworkInfo)
        ensures
            r@ == NetworkView::Unknown,
    {
        NetworkInfo::Unknown
    }
}

impl NetworkEvent {
    /// The event that reports `info`.
    pub fn from_info(info: NetworkInfo) -> (r: NetworkEvent)
        ensures
            r@ == info@,
    {
        match info {
            NetworkInfo::Unknown => NetworkEvent::Unknown,
            NetworkInfo::WiFi { ssid, interface } => NetworkEvent::WiFi { ssid, interface },
            NetworkInfo::Cellular { interface } => NetworkEvent::Cellular { interface },
            NetworkInfo::Wired { interface } => NetworkEvent::Wired { interface },
        }
    }

    /// The one-line text that the tray shows for this event.
    pub fn summary(&self) -> (r: String)
        ensures
            r@ == match self@ {
                NetworkView::WiFi { ssid, interface } => "WiFI: "@ + ssid + " ("@ + interface
                    + ")"@,
                NetworkView::Cellular { interface } => "Cellular ("@ + interface + ")"@,
                NetworkView::Wired { interface } => "Wired ("@ + interface + ")"@,
                NetworkView::Unknown => "Unknown"@,
            },
    {
        match self {
            NetworkEvent::WiFi { ssid, interface } => {
                let mut s = String::from_str("WiFI: ");
                s.append(ssid.as_str());
                s.append(" (");
                s.append(interface.as_str());
                s.append(")");
                s
            },
            NetworkEvent::Cellular { interface } => {
                let mut s = String::from_str("Cellular (");
                s.append(interface.as_str());
                s.append(")");
                s
            },
            NetworkEvent::Wired { interface } => {
                let mut s = String::from_str("Wired (");
                s.append(interface.as_str());
                s.append(")");
                s
            },
            NetworkEvent::Unknown => String::from_str("Unknown"),
        }
    }
}

/// What the monitor knows: whether the location permission is granted, and
/// the network the host is attached to.
pub struct Monitor {
    permission_granted: bool,
    info: NetworkInfo,
}

pub struct MonitorView {
    pub granted: bool,
    pub info: NetworkView,
}

impl View for Monitor {
    type V = MonitorView;

    closed spec fn view(&self) -> MonitorView {
        MonitorView { granted: self.permission_granted, info: self.info@ }
    }
}

impl Default for Monitor {
    /// Same as `Monitor::new`.
    fn default() -> (r: Monitor)
        ensures
            !r@.granted,
            r@.info == NetworkView::Unknown,
    {
        Monitor::new()
    }
}

impl Monitor {
    /// A monitor that knows nothing yet: no permission, an unknown network.
    pub fn new() -> (r: Monitor)
        ensures
            !r@.granted,
            r@.info == NetworkView::Unknown,
    {
        Monitor { permission_granted: false, info: NetworkInfo::Unknown }
    }

    /// The network the host is attached to.
    pub fn get_network_info(&self) -> (r: NetworkInfo)
        ensures
            r@ == self@.info,
    {
        self.info.duplicate()
    }

    /// Whether the location permission is granted.
    pub fn is_permission_granted(&self) -> (r: bool)
        ensures
            r == self@.granted,
    {
        self.permission_granted
    }

    /// An interface was reported: it becomes the network the host is on.
    pub fn on_interface(&mut self, kind: InterfaceKind, name: String, ssid: String)
        ensures
            final(self)@.granted == old(self)@.granted,
            final(self)@.info == interface_view(kind, name@, ssid@),
    {
        self.info = NetworkInfo::from_interface(kind, name, ssid);
    }

    /// The permission changed. Returns the WiFi interface whose network name
    /// should now be looked up: the current one, when permission is newly
    /// usable and its network name is still unknown.
    pub fn on_authorization(&mut self, status: AuthorizationStatus) -> (r: Option<String>)
        ensures
            final(self)@.granted == grants(status),
            final(self)@.info == old(self)@.info,
            r matches Some(i) ==> grants(status) && old(self)@.info == (NetworkView::WiFi {
                ssid: Seq::<char>::empty(),
                interface: i@,
            }),
            r is None ==> !(grants(status) && ssid_unknown(old(self)@.info)),
    {
        let granted = match status {
            AuthorizationStatus::AuthorizedAlways | AuthorizationStatus::AuthorizedWhenInUse => true,
            _ => false,
        };
        self.permission_granted = granted;
        if !granted {
            return None;
        }
        match &self.info {
            NetworkInfo::WiFi { ssid, interface } => {
                if ssid.as_str().is_empty() {
                    proof {
                        assert(ssid@ =~= Seq::<char>::empty());
                    }
                    Some(interface.clone())
                } else {
                    None
                }
            },
            _ => None,
        }
    }
}

} // verus!
