//! The owner of a connection: the name and the path of the process that
//! holds it.
//!
//! The operating system is asked for the image path of the process first.
//! Where that fails, process 4 is the system process, and any other process
//! is looked up by a second way, an enumeration of the running processes.

use vstd::prelude::*;
use vstd::string::StringExecFns;
use crate::nt_to_dos::{dos_path, to_dos_path, DeviceMap};
use crate::socket::text_view;
use crate::text::{chars_of, lemma_split_nonempty, split, split_bounds, string_of, trim, trim_bounds};

verus! {

/// The process id of the system process.
pub const SYSTEM_PID: u32 = 4;

/// The identity of the process that owns a connection.
#[derive(Clone, Debug, PartialEq, Eq)]
pub struct ProcessOwner {
    pub process_name: String,
    pub executable_path: Option<String>,
}

/// The identity of an owner, by value.
pub struct OwnerView {
    pub process_name: Seq<char>,
    pub executable_path: Option<Seq<char>>,
}

impl View for ProcessOwner {
    type V = OwnerView;

    open spec fn view(&self) -> OwnerView {
        OwnerView {
            process_name: self.process_name@,
            executable_path: text_view(self.executable_path),
        }
    }
}

/// What is known of an owner after the first lookup.
#[derive(Clone, Debug, PartialEq, Eq)]
pub enum OwnerLookup {
    /// The owner is known.
    Found(ProcessOwner),
    /// The caller has to look the process up in the enumeration of running
    /// processes.
    Enumerate,
}

/// The file name of an image path: what follows its last backslash, without
/// white space at either end.
pub open spec fn file_name(path: Seq<char>) -> Seq<char> {
    trim(split(path, '\\').last())
}

/// The owner that an image path tells of.
pub open spec fn image_owner(path: Seq<char>, devices: Map<Seq<char>, Seq<char>>) -> OwnerView {
    OwnerView { process_name: file_name(path), executable_path: dos_path(path, devices) }
}

/// The owner named `name`, of unknown path.
pub open spec fn named_owner(name: Seq<char>) -> OwnerView {
    OwnerView { process_name: name, executable_path: None }
}

/// What the first lookup gives: with a non-empty image path, the owner it
/// tells of; without one, the system process for process 4, and for any
/// other process nothing yet.
pub open spec fn first_lookup(
    pid: u32,
    image_path: Option<Seq<char>>,
    devices: Map<Seq<char>, Seq<char>>,
) -> Option<OwnerView> {
    if image_path is Some && image_path->0.len() > 0 {
        Some(image_owner(image_path->0, devices))
    } else if pid == SYSTEM_PID {
        Some(named_owner("SYSTEM"@))
    } else {
        None
    }
}

/// What the enumeration gives: the name it found, or `unknown`.
pub open spec fn enumerated_owner(name: Option<Seq<char>>) -> OwnerView {
    match name {
        Some(n) => named_owner(n),
        None => named_owner("unknown"@),
    }
}

/// The file name of the image path `path`.
pub fn image_file_name(path: &str) -> (name: String)
    ensures
        name@ == file_name(path@),
{
    let chars = chars_of(path);
    assert(chars@.subrange(0, chars.len() as int) =~= path@);
    let bounds = split_bounds(&chars, 0, chars.len(), '\\');
    proof {
        lemma_split_nonempty(path@, '\\');
    }
    let last = bounds[bounds.len() - 1];
    let trimmed = trim_bounds(&chars, last.0, last.1);
    string_of(&chars, trimmed.0, trimmed.1)
}

/// Decides the owner of process `pid` from the answer to the image-path
/// query: `image_path` is the path the operating system gave, or `None`
/// where the query failed.
pub fn owner_from_image_path(pid: u32, image_path: Option<&str>, devices: &DeviceMap) -> (lookup:
    OwnerLookup)
    ensures
        match first_lookup(
            pid,
            match image_path {
                Some(p) => Some(p@),
                None => None,
            },
            devices@,
        ) {
            Some(owner) => lookup matches OwnerLookup::Found(o) && o@ == owner,
            None => lookup is Enumerate,
        },
{
    if let Some(path) = image_path {
        if !path.is_empty() {
            let process_name = image_file_name(path);
            let executable_path = to_dos_path(path, devices);
            return OwnerLookup::Found(ProcessOwner { process_name, executable_path });
        }
    }
    if pid == SYSTEM_PID {
        OwnerLookup::Found(
            ProcessOwner { process_name: String::from_str("SYSTEM"), executable_path: None },
        )
    } else {
        OwnerLookup::Enumerate
    }
}

/// Decides the owner of a process from the answer of the enumeration of
/// running processes: the name found there, or `unknown`.
pub fn owner_from_enumeration(name: Option<String>) -> (owner: ProcessOwner)
    ensures
        owner@ == enumerated_owner(text_view(name)),
{
    match name {
        Some(process_name) => ProcessOwner { process_name, executable_path: None },
        None => ProcessOwner { process_name: String::from_str("unknown"), executable_path: None },
    }
}

} // verus!
