//! The options of one run: filters, range query, sort order and output
//! choices, as the caller resolved them.

use vstd::prelude::*;
use crate::rpderror::{RpdError, RpdErrorView};
use crate::text::{lowercase, str_equal, to_lowercase};

verus! {

/// The resolved options of a run.
#[derive(Clone, Debug, Default)]
pub struct Args {
    /// Keep records with this local port.
    pub port: Option<u16>,
    /// Keep records with this remote port.
    pub remote_port: Option<u16>,
    /// The protocol to list, `tcp` or `udp`; both when absent.
    pub mode: Option<String>,
    /// Keep records whose process name matches this pattern.
    pub process_name: Option<String>,
    /// Keep records of this process.
    pub pid: Option<u32>,
    /// Keep records in this connection state.
    pub state: Option<String>,
    /// The IP version to list, 4 or 6; 4 when absent.
    pub ip_version: Option<u8>,
    /// Keep records with this local address.
    pub local_address: Option<String>,
    /// Keep records with this remote address.
    pub remote_address: Option<String>,
    pub json: bool,
    /// Drop the records of the system process.
    pub no_system: bool,
    /// The sort order, `asc` or `desc`, then the sort field.
    pub sort_by: Option<Vec<String>>,
    pub resolve_hostname: bool,
    pub compact: bool,
    /// Keep records at least this many seconds old.
    pub older_than: Option<u32>,
    /// Keep records at most this many seconds old.
    pub younger_than: Option<u32>,
    /// The output fields to show.
    pub fields: Option<Vec<String>>,
    pub uptime_format: Option<String>,
    /// The field of a range query, then its lower and upper bound.
    pub range: Option<Vec<String>>,
    pub stats: bool,
    pub set_config_value: Option<Vec<String>>,
    pub get_config_value: Option<String>,
}

/// One where `active` holds, zero where it does not.
#[verifier::opaque]
pub open spec fn one_if(active: bool) -> nat {
    if active {
        1
    } else {
        0
    }
}

impl Args {
    /// The number of filter options that are set: the eleven options that
    /// restrict which records are kept.
    pub open spec fn active_filters(&self) -> nat {
        one_if(self.port is Some) + one_if(self.remote_port is Some) + one_if(
            self.process_name is Some,
        ) + one_if(self.pid is Some) + one_if(self.state is Some) + one_if(
            self.local_address is Some,
        ) + one_if(self.remote_address is Some) + one_if(self.no_system) + one_if(
            self.older_than is Some,
        ) + one_if(self.younger_than is Some) + one_if(self.range is Some)
    }

    /// Counts the filter options that are set.
    pub fn get_argc(&self) -> (argc: usize)
        ensures
            argc == self.active_filters(),
    {
        let port: usize = count_set(&self.port);
        let remote_port: usize = count_set(&self.remote_port);
        let process_name: usize = count_set(&self.process_name);
        let pid: usize = count_set(&self.pid);
        let state: usize = count_set(&self.state);
        let local_address: usize = count_set(&self.local_address);
        let remote_address: usize = count_set(&self.remote_address);
        let no_system: usize = if self.no_system {
            1
        } else {
            0
        };
        let older_than: usize = count_set(&self.older_than);
        let younger_than: usize = count_set(&self.younger_than);
        let range: usize = count_set(&self.range);
        proof {
            reveal(one_if);
        }
        port + remote_port + process_name + pid + state + local_address + remote_address
            + no_system + older_than + younger_than + range
    }
}

/// Whether `name`, given in lower case, names a field of the output.
pub open spec fn is_output_field(name: Seq<char>) -> bool {
    name == "pid"@ || name == "process-name"@ || name == "port"@ || name == "protocol"@ || name
        == "local-address"@ || name == "remote-address"@ || name == "state"@ || name == "uptime"@
}

/// What is wrong with the field at `index` of a choice of output fields:
/// it repeats an earlier field, or it names no field of the output. Names
/// are compared in lower case. The failure holds the field as it was given.
pub open spec fn field_fault(fields: Seq<Seq<char>>, index: int) -> Option<RpdErrorView> {
    let name = lowercase(fields[index]);
    if exists|j: int| 0 <= j < index && lowercase(#[trigger] fields[j]) == name {
        Some(RpdErrorView::RepeatedFieldArgErr(fields[index]))
    } else if !is_output_field(name) {
        Some(RpdErrorView::InvalidFieldArgErr(fields[index]))
    } else {
        None
    }
}

/// The fault of the first field at or after `from` that has one.
pub open spec fn first_fault(fields: Seq<Seq<char>>, from: int) -> Option<RpdErrorView>
    decreases fields.len() - from,
{
    if from < 0 || from >= fields.len() {
        None
    } else if field_fault(fields, from) is Some {
        field_fault(fields, from)
    } else {
        first_fault(fields, from + 1)
    }
}

/// Tells whether `name`, given in lower case, names a field of the output.
pub fn names_output_field(name: &str) -> (known: bool)
    ensures
        known == is_output_field(name@),
{
    str_equal(name, "pid") || str_equal(name, "process-name") || str_equal(name, "port")
        || str_equal(name, "protocol") || str_equal(name, "local-address") || str_equal(
        name,
        "remote-address",
    ) || str_equal(name, "state") || str_equal(name, "uptime")
}

/// Checks a choice of output fields: every field has to name a field of the
/// output, and none may be named twice. The first field that fails is
/// reported. No choice is a valid choice.
pub fn validate_field_args(fields: Option<&Vec<String>>) -> (checked: Result<(), RpdError>)
    ensures
        match checked {
            Ok(_) => fields is Some ==> first_fault(fields->0.deep_view(), 0) is None,
            Err(e) => fields is Some && first_fault(fields->0.deep_view(), 0) == Some(e@),
        },
{
    let list = match fields {
        Some(list) => list,
        None => {
            return Ok(());
        },
    };
    let ghost all = list.deep_view();
    let mut seen: Vec<String> = Vec::new();
    let mut i: usize = 0;
    while i < list.len()
        invariant
            i <= list.len(),
            fields == Some(list),
            all == list.deep_view(),
            first_fault(all, 0) == first_fault(all, i as int),
            seen@.len() == i,
            forall|j: int| 0 <= j < i ==> (#[trigger] seen@[j])@ == lowercase(all[j]),
        decreases list.len() - i,
    {
        let lowered = to_lowercase(list[i].as_str());
        let mut repeated: bool = false;
        let mut j: usize = 0;
        while j < seen.len() && !repeated
            invariant
                j <= seen.len(),
                seen@.len() == i,
                i < list.len(),
                all == list.deep_view(),
                lowered@ == lowercase(all[i as int]),
                forall|k: int| 0 <= k < i ==> (#[trigger] seen@[k])@ == lowercase(all[k]),
                repeated ==> exists|k: int|
                    0 <= k < i && lowercase(#[trigger] all[k]) == lowercase(all[i as int]),
                !repeated ==> forall|k: int|
                    0 <= k < j ==> lowercase(#[trigger] all[k]) != lowercase(all[i as int]),
            decreases seen.len() - j,
        {
            if str_equal(seen[j].as_str(), lowered.as_str()) {
                assert(lowercase(all[j as int]) == lowercase(all[i as int]));
                repeated = true;
            }
            j = j + 1;
        }
        if repeated {
            return Err(RpdError::RepeatedFieldArgErr(list[i].clone()));
        }
        if !names_output_field(lowered.as_str()) {
            return Err(RpdError::InvalidFieldArgErr(list[i].clone()));
        }
        seen.push(lowered);
        i = i + 1;
    }
    Ok(())
}

/// One where `option` is set, zero where it is not.
fn count_set<T>(option: &Option<T>) -> (n: usize)
    ensures
        n == one_if(*option is Some),
        n <= 1,
{
    reveal(one_if);
    if option.is_some() {
        1
    } else {
        0
    }
}

} // verus!
