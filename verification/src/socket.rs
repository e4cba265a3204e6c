//! The socket record: one observed connection or listening endpoint.

use vstd::prelude::*;

verus! {

/// The transport protocol of a socket record.
#[derive(Clone, Copy, Debug, PartialEq, Eq, Structural)]
pub enum Protocol {
    Tcp,
    Udp,
}

/// One connection or listening endpoint, with its owning process and its
/// age.
#[derive(Clone, Debug, PartialEq, Eq)]
pub struct Socket {
    /// File name of the owning executable, `SYSTEM`, or `unknown`.
    pub process_name: String,
    pub pid: u32,
    pub local_port: u16,
    /// The peer's port; a UDP record has none.
    pub remote_port: Option<u16>,
    pub protocol: Protocol,
    pub local_address: String,
    /// The peer's address; a UDP record has none.
    pub remote_address: Option<String>,
    /// A TCP state name, or `-` for UDP.
    pub state: String,
    /// Full path of the owning executable, when it is known.
    pub executable_path: Option<String>,
    /// Seconds since the connection was created.
    pub uptime_seconds: u64,
}

/// A socket record by value: each text as its sequence of characters.
pub struct SocketView {
    pub process_name: Seq<char>,
    pub pid: u32,
    pub local_port: u16,
    pub remote_port: Option<u16>,
    pub protocol: Protocol,
    pub local_address: Seq<char>,
    pub remote_address: Option<Seq<char>>,
    pub state: Seq<char>,
    pub executable_path: Option<Seq<char>>,
    pub uptime_seconds: u64,
}

/// The characters of an optional text.
pub open spec fn text_view(text: Option<String>) -> Option<Seq<char>> {
    match text {
        Some(t) => Some(t@),
        None => None,
    }
}

impl View for Socket {
    type V = SocketView;

    open spec fn view(&self) -> SocketView {
        SocketView {
            process_name: self.process_name@,
            pid: self.pid,
            local_port: self.local_port,
            remote_port: self.remote_port,
            protocol: self.protocol,
            local_address: self.local_address@,
            remote_address: text_view(self.remote_address),
            state: self.state@,
            executable_path: text_view(self.executable_path),
            uptime_seconds: self.uptime_seconds,
        }
    }
}

/// The records of a table by value.
pub open spec fn views(table: Seq<Socket>) -> Seq<SocketView> {
    table.map_values(|s: Socket| s@)
}

/// A copy of an optional text.
pub fn clone_text(text: &Option<String>) -> (copy: Option<String>)
    ensures
        copy == *text,
{
    match text {
        Some(t) => Some(t.clone()),
        None => None,
    }
}

impl SocketView {
    /// A record is well formed when its peer fields agree with its
    /// protocol: a TCP record has a peer port and a peer address, a UDP
    /// record has neither; and when it has a real owner, which is never
    /// process 0.
    pub open spec fn wf(&self) -> bool {
        &&& self.remote_port is Some <==> self.protocol == Protocol::Tcp
        &&& self.remote_address is Some <==> self.protocol == Protocol::Tcp
        &&& self.pid != 0
    }
}

impl Socket {
    /// Whether the record is well formed.
    pub open spec fn wf(&self) -> bool {
        self@.wf()
    }

    /// A copy of the record.
    pub fn duplicate(&self) -> (copy: Socket)
        ensures
            copy == *self,
    {
        Socket {
            process_name: self.process_name.clone(),
            pid: self.pid,
            local_port: self.local_port,
            remote_port: self.remote_port,
            protocol: self.protocol,
            local_address: self.local_address.clone(),
            remote_address: clone_text(&self.remote_address),
            state: self.state.clone(),
            executable_path: clone_text(&self.executable_path),
            uptime_seconds: self.uptime_seconds,
        }
    }
}

} // verus!
