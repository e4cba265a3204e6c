//! The failures that the query layer reports to its caller.

use vstd::prelude::*;
use vstd::string::StringExecFns;

verus! {

/// A rejected argument or configuration value, with the offending text.
#[derive(Clone, Debug, PartialEq, Eq)]
pub enum RpdError {
    ParseArgsErr(String),
    /// An output field was named twice.
    RepeatedFieldArgErr(String),
    /// An output field is not one of the known fields.
    InvalidFieldArgErr(String),
    ConfigDirNotFoundErr(),
    InvalidConfigKeyErr(String),
    UpdateConfigErr(String),
    InvalidIpVersionErr(),
    InvalidProtocolErr(String),
    InvalidUptimeFormatErr(String),
    /// The field of a range query is not one of the range fields.
    InvalidRangeFieldErr(String),
    /// The lower bound of a range query, then its field.
    InvalidRangeMinErr(String, String),
    /// The upper bound of a range query, then its field.
    InvalidRangeMaxErr(String, String),
    InvalidLocalAddressErr(String),
    InvalidRemoteAddressErr(String),
    InvalidSortFieldErr(String),
    InvalidSortOrderErr(String),
}

/// A failure by value: each text as its sequence of characters.
pub enum RpdErrorView {
    ParseArgsErr(Seq<char>),
    RepeatedFieldArgErr(Seq<char>),
    InvalidFieldArgErr(Seq<char>),
    ConfigDirNotFoundErr,
    InvalidConfigKeyErr(Seq<char>),
    UpdateConfigErr(Seq<char>),
    InvalidIpVersionErr,
    InvalidProtocolErr(Seq<char>),
    InvalidUptimeFormatErr(Seq<char>),
    InvalidRangeFieldErr(Seq<char>),
    InvalidRangeMinErr(Seq<char>, Seq<char>),
    InvalidRangeMaxErr(Seq<char>, Seq<char>),
    InvalidLocalAddressErr(Seq<char>),
    InvalidRemoteAddressErr(Seq<char>),
    InvalidSortFieldErr(Seq<char>),
    InvalidSortOrderErr(Seq<char>),
}

impl View for RpdError {
    type V = RpdErrorView;

    open spec fn view(&self) -> RpdErrorView {
        match self {
            RpdError::ParseArgsErr(t) => RpdErrorView::ParseArgsErr(t@),
            RpdError::RepeatedFieldArgErr(t) => RpdErrorView::RepeatedFieldArgErr(t@),
            RpdError::InvalidFieldArgErr(t) => RpdErrorView::InvalidFieldArgErr(t@),
            RpdError::ConfigDirNotFoundErr() => RpdErrorView::ConfigDirNotFoundErr,
            RpdError::InvalidConfigKeyErr(t) => RpdErrorView::InvalidConfigKeyErr(t@),
            RpdError::UpdateConfigErr(t) => RpdErrorView::UpdateConfigErr(t@),
            RpdError::InvalidIpVersionErr() => RpdErrorView::InvalidIpVersionErr,
            RpdError::InvalidProtocolErr(t) => RpdErrorView::InvalidProtocolErr(t@),
            RpdError::InvalidUptimeFormatErr(t) => RpdErrorView::InvalidUptimeFormatErr(t@),
            RpdError::InvalidRangeFieldErr(t) => RpdErrorView::InvalidRangeFieldErr(t@),
            RpdError::InvalidRangeMinErr(t, f) => RpdErrorView::InvalidRangeMinErr(t@, f@),
            RpdError::InvalidRangeMaxErr(t, f) => RpdErrorView::InvalidRangeMaxErr(t@, f@),
            RpdError::InvalidLocalAddressErr(t) => RpdErrorView::InvalidLocalAddressErr(t@),
            RpdError::InvalidRemoteAddressErr(t) => RpdErrorView::InvalidRemoteAddressErr(t@),
            RpdError::InvalidSortFieldErr(t) => RpdErrorView::InvalidSortFieldErr(t@),
            RpdError::InvalidSortOrderErr(t) => RpdErrorView::InvalidSortOrderErr(t@),
        }
    }
}

/// The message that tells a user of a failure.
pub open spec fn message_text(error: RpdErrorView) -> Seq<char> {
    match error {
        RpdErrorView::ParseArgsErr(t) => t,
        RpdErrorView::RepeatedFieldArgErr(t) => "error: Repeated field '"@ + t + "'"@,
        RpdErrorView::InvalidFieldArgErr(t) => "error: Invalid field: '"@ + t
            + "'\n\nAvailable fields:\n\n  - pid\n  - process-name\n  - port\n  - protocol\n  - local-address\n  - remote-address\n  - state\n  - uptime"@,
        RpdErrorView::ConfigDirNotFoundErr => "error: Config directory not found"@,
        RpdErrorView::InvalidConfigKeyErr(t) => "error: Invalid configuration key: '"@ + t
            + "'\n\nUse '--help' to see available configurations or read the configuration file on 'AppData\\Roaming\\r-port-doctor\\config.toml'"@,
        RpdErrorView::UpdateConfigErr(t) => "error: "@ + t,
        RpdErrorView::InvalidIpVersionErr =>
            "error: Invalid IP version\n\nValid versions:\n\n  - 4 (IPv4)\n  - 6 (IPv6)"@,
        RpdErrorView::InvalidProtocolErr(t) => "error: Invalid protocol: '"@ + t
            + "'\n\nAvailable protocols:\n\n  - TCP\n  - UDP"@,
        RpdErrorView::InvalidUptimeFormatErr(t) => "error: Invalid uptime format: '"@ + t
            + "'\n\nAvailable formats:\n\n  - clock\n  - human\n  - hours\n  - minutes\n  - seconds"@,
        RpdErrorView::InvalidRangeFieldErr(t) => "error: Invalid <FIELD> value '"@ + t
            + "' provided for range filtering"@,
        RpdErrorView::InvalidRangeMinErr(t, f) => "error: Invalid <MIN> value '"@ + t
            + "' provided for "@ + f + " range filtering"@,
        RpdErrorView::InvalidRangeMaxErr(t, f) => "error: Invalid <MAX> value '"@ + t
            + "' provided for "@ + f + " range filtering"@,
        RpdErrorView::InvalidLocalAddressErr(t) => "error: Invalid local address provided: '"@ + t
            + "'"@,
        RpdErrorView::InvalidRemoteAddressErr(t) => "error: Invalid remote address provided: '"@
            + t + "'"@,
        RpdErrorView::InvalidSortFieldErr(t) => "error: Invalid sort field argument: '"@ + t
            + "'\n\nAvailable arguments:\n\n  - pid\n  - port\n  - remote-port\n  - process-name\n  - uptime\n  - local-address\n  - remote-address"@,
        RpdErrorView::InvalidSortOrderErr(t) => "error: Invalid sort order argument: '"@ + t
            + "'\n\nAvailable orders:\n  - asc (ascendant)\n  - desc (descendant)"@,
    }
}

/// Writes `before`, then `value`, then `after`.
fn around(before: &str, value: &str, after: &str) -> (text: String)
    ensures
        text@ == before@ + value@ + after@,
{
    let mut text = String::from_str(before);
    text.append(value);
    text.append(after);
    text
}

impl RpdError {
    /// The message that tells a user of the failure, with the offending
    /// text where there is one.
    pub fn message(&self) -> (text: String)
        ensures
            text@ == message_text(self@),
    {
        match self {
            RpdError::ParseArgsErr(t) => t.clone(),
            RpdError::RepeatedFieldArgErr(t) => around("error: Repeated field '", t.as_str(), "'"),
            RpdError::InvalidFieldArgErr(t) => around(
                "error: Invalid field: '",
                t.as_str(),
                "'\n\nAvailable fields:\n\n  - pid\n  - process-name\n  - port\n  - protocol\n  - local-address\n  - remote-address\n  - state\n  - uptime",
            ),
            RpdError::ConfigDirNotFoundErr() => String::from_str(
                "error: Config directory not found",
            ),
            RpdError::InvalidConfigKeyErr(t) => around(
                "error: Invalid configuration key: '",
                t.as_str(),
                "'\n\nUse '--help' to see available configurations or read the configuration file on 'AppData\\Roaming\\r-port-doctor\\config.toml'",
            ),
            RpdError::UpdateConfigErr(t) => {
                let mut text = String::from_str("error: ");
                text.append(t.as_str());
                text
            },
            RpdError::InvalidIpVersionErr() => String::from_str(
                "error: Invalid IP version\n\nValid versions:\n\n  - 4 (IPv4)\n  - 6 (IPv6)",
            ),
            RpdError::InvalidProtocolErr(t) => around(
                "error: Invalid protocol: '",
                t.as_str(),
                "'\n\nAvailable protocols:\n\n  - TCP\n  - UDP",
            ),
            RpdError::InvalidUptimeFormatErr(t) => around(
                "error: Invalid uptime format: '",
                t.as_str(),
                "'\n\nAvailable formats:\n\n  - clock\n  - human\n  - hours\n  - minutes\n  - seconds",
            ),
            RpdError::InvalidRangeFieldErr(t) => around(
                "error: Invalid <FIELD> value '",
                t.as_str(),
                "' provided for range filtering",
            ),
            RpdError::InvalidRangeMinErr(t, f) => {
                let mut text = around("error: Invalid <MIN> value '", t.as_str(), "' provided for ");
                text.append(f.as_str());
                text.append(" range filtering");
                text
            },
            RpdError::InvalidRangeMaxErr(t, f) => {
                let mut text = around("error: Invalid <MAX> value '", t.as_str(), "' provided for ");
                text.append(f.as_str());
                text.append(" range filtering");
                text
            },
            RpdError::InvalidLocalAddressErr(t) => around(
                "error: Invalid local address provided: '",
                t.as_str(),
                "'",
            ),
            RpdError::InvalidRemoteAddressErr(t) => around(
                "error: Invalid remote address provided: '",
                t.as_str(),
                "'",
            ),
            RpdError::InvalidSortFieldErr(t) => around(
                "error: Invalid sort field argument: '",
                t.as_str(),
                "'\n\nAvailable arguments:\n\n  - pid\n  - port\n  - remote-port\n  - process-name\n  - uptime\n  - local-address\n  - remote-address",
            ),
            RpdError::InvalidSortOrderErr(t) => around(
                "error: Invalid sort order argument: '",
                t.as_str(),
                "'\n\nAvailable orders:\n  - asc (ascendant)\n  - desc (descendant)",
            ),
        }
    }
}

} // verus!
