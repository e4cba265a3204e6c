//! Range queries: keeping the records whose field lies between two bounds.
//!
//! A range query is a list of three texts: the name of a field, the lower
//! bound and the upper bound. Both bounds are inclusive. A bound that cannot
//! be read stands for the least or the greatest value of the field.

use vstd::prelude::*;
use crate::address::{
    ipv6_value,
    is_valid_address,
    parse_ipv4,
    parse_ipv6,
    validate_address,
    Ipv4Address,
    Ipv6Address,
};
use crate::decimal::{decimal_text, lemma_parse_of_decimal_text, parse_number, parse_unsigned};
use crate::rpderror::{RpdError, RpdErrorView};
use crate::socket::{Protocol, Socket, SocketView};
use crate::text::{lowercase, str_equal, to_lowercase};

verus! {

/// A kind of value that a range query can bound: it can be read from text,
/// and its values are ordered by their rank.
pub trait RangeValue: Copy {
    /// The place of a value in the order of its kind.
    spec fn rank(self) -> int;

    /// The rank of the value that `text` denotes, if it denotes one.
    spec fn text_rank(text: Seq<char>) -> Option<int>;

    /// Reads a value from text.
    fn parse_text(text: &str) -> (value: Option<Self>)
        ensures
            match value {
                Some(v) => Self::text_rank(text@) == Some(v.rank()),
                None => Self::text_rank(text@) is None,
            },
    ;

    /// Whether `self` comes before `other` in the order, or is equal to it.
    fn at_most(self, other: Self) -> (before: bool)
        ensures
            before == (self.rank() <= other.rank()),
    ;
}

/// The rank of the number that `text` denotes in decimal, if it is at most
/// `max`.
pub open spec fn number_rank(text: Seq<char>, max: nat) -> Option<int> {
    match parse_unsigned(text, max) {
        Some(v) => Some(v as int),
        None => None,
    }
}

impl RangeValue for u16 {
    open spec fn rank(self) -> int {
        self as int
    }

    open spec fn text_rank(text: Seq<char>) -> Option<int> {
        number_rank(text, 0xffff)
    }

    fn parse_text(text: &str) -> (value: Option<u16>) {
        match parse_number(text, 0xffff) {
            Some(v) => Some(v as u16),
            None => None,
        }
    }

    fn at_most(self, other: u16) -> (before: bool) {
        self <= other
    }
}

impl RangeValue for u32 {
    open spec fn rank(self) -> int {
        self as int
    }

    open spec fn text_rank(text: Seq<char>) -> Option<int> {
        number_rank(text, 0xffff_ffff)
    }

    fn parse_text(text: &str) -> (value: Option<u32>) {
        match parse_number(text, 0xffff_ffff) {
            Some(v) => Some(v as u32),
            None => None,
        }
    }

    fn at_most(self, other: u32) -> (before: bool) {
        self <= other
    }
}

impl RangeValue for u64 {
    open spec fn rank(self) -> int {
        self as int
    }

    open spec fn text_rank(text: Seq<char>) -> Option<int> {
        number_rank(text, 0xffff_ffff_ffff_ffff)
    }

    fn parse_text(text: &str) -> (value: Option<u64>) {
        parse_number(text, 0xffff_ffff_ffff_ffff)
    }

    fn at_most(self, other: u64) -> (before: bool) {
        self <= other
    }
}

impl RangeValue for Ipv4Address {
    open spec fn rank(self) -> int {
        self.bits as int
    }

    open spec fn text_rank(text: Seq<char>) -> Option<int> {
        match parse_ipv4(text) {
            Some(v) => Some(v as int),
            None => None,
        }
    }

    fn parse_text(text: &str) -> (value: Option<Ipv4Address>) {
        Ipv4Address::parse(text)
    }

    fn at_most(self, other: Ipv4Address) -> (before: bool) {
        self.bits <= other.bits
    }
}

impl RangeValue for Ipv6Address {
    open spec fn rank(self) -> int {
        self.value() as int
    }

    open spec fn text_rank(text: Seq<char>) -> Option<int> {
        match parse_ipv6(text) {
            Some(groups) => Some(ipv6_value(groups) as int),
            None => None,
        }
    }

    fn parse_text(text: &str) -> (value: Option<Ipv6Address>) {
        Ipv6Address::parse(text)
    }

    fn at_most(self, other: Ipv6Address) -> (before: bool) {
        self.to_bits() <= other.to_bits()
    }
}

/// The least IPv4 address, `0.0.0.0`.
pub fn min_ipv4() -> (address: Ipv4Address)
    ensures
        address.bits == 0,
{
    Ipv4Address { bits: 0 }
}

/// The greatest IPv4 address, `255.255.255.255`.
pub fn max_ipv4() -> (address: Ipv4Address)
    ensures
        address.bits == 0xffff_ffff,
{
    Ipv4Address { bits: 0xffff_ffff }
}

/// The least IPv6 address, `::`.
pub fn min_ipv6() -> (address: Ipv6Address)
    ensures
        address.groups@ == seq![0u16, 0u16, 0u16, 0u16, 0u16, 0u16, 0u16, 0u16],
{
    let address = Ipv6Address { groups: [0, 0, 0, 0, 0, 0, 0, 0] };
    assert(address.groups@ =~= seq![0u16, 0u16, 0u16, 0u16, 0u16, 0u16, 0u16, 0u16]);
    address
}

/// The greatest IPv6 address, with every group `ffff`.
pub fn max_ipv6() -> (address: Ipv6Address)
    ensures
        address.groups@ == seq![
            0xffffu16,
            0xffffu16,
            0xffffu16,
            0xffffu16,
            0xffffu16,
            0xffffu16,
            0xffffu16,
            0xffffu16,
        ],
{
    let address = Ipv6Address {
        groups: [0xffff, 0xffff, 0xffff, 0xffff, 0xffff, 0xffff, 0xffff, 0xffff],
    };
    assert(address.groups@ =~= seq![
        0xffffu16,
        0xffffu16,
        0xffffu16,
        0xffffu16,
        0xffffu16,
        0xffffu16,
        0xffffu16,
        0xffffu16,
    ]);
    address
}

/// The rank of the bound at `index` of a range query: that of the value the
/// text denotes, or `default` where the text is missing or denotes none.
pub open spec fn bound_rank<T: RangeValue>(range: Seq<Seq<char>>, index: int, default: int) -> int {
    if 0 <= index < range.len() && T::text_rank(range[index]) is Some {
        T::text_rank(range[index])->0
    } else {
        default
    }
}

/// Whether `rank` lies between the bounds of a range query, both included.
pub open spec fn in_range<T: RangeValue>(
    default_min: int,
    default_max: int,
    range: Seq<Seq<char>>,
    rank: int,
) -> bool {
    bound_rank::<T>(range, 1, default_min) <= rank <= bound_rank::<T>(range, 2, default_max)
}

/// Whether the value that `text` denotes lies between the bounds of a range
/// query; a text that denotes no value lies in no range.
pub open spec fn text_in_range<T: RangeValue>(
    default_min: int,
    default_max: int,
    range: Seq<Seq<char>>,
    text: Seq<char>,
) -> bool {
    T::text_rank(text) is Some && in_range::<T>(
        default_min,
        default_max,
        range,
        T::text_rank(text)->0,
    )
}

/// The bound at `index` of a range query.
fn read_bound<T: RangeValue>(range_args: &Vec<String>, index: usize, default: T) -> (bound: T)
    ensures
        bound.rank() == bound_rank::<T>(range_args.deep_view(), index as int, default.rank()),
{
    if index < range_args.len() {
        match T::parse_text(range_args[index].as_str()) {
            Some(bound) => bound,
            None => default,
        }
    } else {
        default
    }
}

/// Checks that `socket_field` lies between the bounds of the range query
/// `range_args`, both included. A bound that is missing or cannot be read is
/// replaced by `default_min` or `default_max`.
pub fn check_field_range<T: RangeValue>(
    default_min: T,
    default_max: T,
    range_args: &Vec<String>,
    socket_field: T,
) -> (inside: bool)
    ensures
        inside == in_range::<T>(
            default_min.rank(),
            default_max.rank(),
            range_args.deep_view(),
            socket_field.rank(),
        ),
{
    let min = read_bound(range_args, 1, default_min);
    let max = read_bound(range_args, 2, default_max);
    min.at_most(socket_field) && socket_field.at_most(max)
}

/// Checks that the address written in `socket_field` lies between the
/// bounds of the range query `range_args`. A field that is not the text of
/// an address lies in no range.
pub fn check_address_range<T: RangeValue>(
    default_min: T,
    default_max: T,
    range_args: &Vec<String>,
    socket_field: &String,
) -> (inside: bool)
    ensures
        inside == text_in_range::<T>(
            default_min.rank(),
            default_max.rank(),
            range_args.deep_view(),
            socket_field@,
        ),
{
    match T::parse_text(socket_field.as_str()) {
        Some(address) => check_field_range(default_min, default_max, range_args, address),
        None => false,
    }
}

/// Whether an address text lies in the range, for the IP version in use:
/// IPv4 where no version is chosen or version 4 is, IPv6 for version 6. For
/// any other version no address lies in a range.
pub open spec fn address_in_range(
    range: Seq<Seq<char>>,
    address: Seq<char>,
    ip_version: Option<u8>,
) -> bool {
    if ip_version is None || ip_version == Some(4u8) {
        text_in_range::<Ipv4Address>(0, 0xffff_ffff, range, address)
    } else if ip_version == Some(6u8) {
        text_in_range::<Ipv6Address>(
            0,
            0xffff_ffff_ffff_ffff_ffff_ffff_ffff_ffff,
            range,
            address,
        )
    } else {
        false
    }
}

/// Whether a record lies in a range query. The field name is read without
/// regard to case. A record that lacks the field, and a query on a field
/// that is not a range field, keep nothing.
pub open spec fn range_matches(
    range: Seq<Seq<char>>,
    socket: SocketView,
    ip_version: Option<u8>,
) -> bool {
    if range.len() == 0 {
        false
    } else {
        let field = lowercase(range[0]);
        if field == "pid"@ {
            in_range::<u32>(0, 0xffff_ffff, range, socket.pid as int)
        } else if field == "port"@ {
            in_range::<u16>(0, 0xffff, range, socket.local_port as int)
        } else if field == "remote-port"@ {
            socket.remote_port is Some && in_range::<u16>(
                0,
                0xffff,
                range,
                socket.remote_port->0 as int,
            )
        } else if field == "uptime"@ {
            in_range::<u64>(0, 0xffff_ffff_ffff_ffff, range, socket.uptime_seconds as int)
        } else if field == "local-address"@ {
            address_in_range(range, socket.local_address, ip_version)
        } else if field == "remote-address"@ {
            socket.remote_address is Some && address_in_range(
                range,
                socket.remote_address->0,
                ip_version,
            )
        } else {
            false
        }
    }
}

/// Checks an address text against a range query, for the IP version in use.
fn check_versioned_address(range_args: &Vec<String>, address: &String, ip_version: &Option<u8>) -> (inside:
    bool)
    ensures
        inside == address_in_range(range_args.deep_view(), address@, *ip_version),
{
    let version: u8 = match ip_version {
        Some(v) => *v,
        None => 4,
    };
    if version == 4 {
        check_address_range(min_ipv4(), max_ipv4(), range_args, address)
    } else if version == 6 {
        check_address_range(min_ipv6(), max_ipv6(), range_args, address)
    } else {
        false
    }
}

/// Checks a record against the range query `range_args`.
pub fn filter_range(range_args: &Vec<String>, socket: &Socket, ip_version: &Option<u8>) -> (inside:
    bool)
    ensures
        inside == range_matches(range_args.deep_view(), socket@, *ip_version),
{
    if range_args.len() == 0 {
        return false;
    }
    let field = to_lowercase(range_args[0].as_str());
    let field = field.as_str();
    if str_equal(field, "pid") {
        check_field_range(0u32, 0xffff_ffffu32, range_args, socket.pid)
    } else if str_equal(field, "port") {
        check_field_range(0u16, 0xffffu16, range_args, socket.local_port)
    } else if str_equal(field, "remote-port") {
        match socket.remote_port {
            Some(remote_port) => check_field_range(0u16, 0xffffu16, range_args, remote_port),
            None => false,
        }
    } else if str_equal(field, "uptime") {
        check_field_range(0u64, 0xffff_ffff_ffff_ffffu64, range_args, socket.uptime_seconds)
    } else if str_equal(field, "local-address") {
        check_versioned_address(range_args, &socket.local_address, ip_version)
    } else if str_equal(field, "remote-address") {
        match &socket.remote_address {
            Some(address) => check_versioned_address(range_args, address, ip_version),
            None => false,
        }
    } else {
        false
    }
}

/// A range query on the age of a record keeps the record if and only if its
/// age lies between the two bounds, both included: a record whose age is
/// exactly the lower or the upper bound is kept.
pub proof fn lemma_uptime_range_is_inclusive(
    range: Seq<Seq<char>>,
    min: u64,
    max: u64,
    socket: SocketView,
    ip_version: Option<u8>,
)
    requires
        range.len() == 3,
        lowercase(range[0]) == "uptime"@,
        u64::text_rank(range[1]) == Some(min as int),
        u64::text_rank(range[2]) == Some(max as int),
    ensures
        range_matches(range, socket, ip_version) <==> min <= socket.uptime_seconds <= max,
{
    reveal_strlit("uptime");
    reveal_strlit("pid");
    reveal_strlit("port");
    reveal_strlit("remote-port");
    assert("uptime"@.len() != "pid"@.len());
    assert("uptime"@.len() != "port"@.len());
    assert("uptime"@.len() != "remote-port"@.len());
}

/// The bounds of a range query on the age may be written as decimal
/// numerals: the numeral of a number denotes that number.
pub proof fn lemma_uptime_bound_is_read(bound: u64)
    ensures
        u64::text_rank(decimal_text(bound as nat)) == Some(bound as int),
{
    lemma_parse_of_decimal_text(bound as nat, 0xffff_ffff_ffff_ffff);
}

/// A range query on the remote port keeps no record without a remote port,
/// and so no well-formed UDP record.
pub proof fn lemma_remote_port_range_drops_udp(
    range: Seq<Seq<char>>,
    socket: SocketView,
    ip_version: Option<u8>,
)
    requires
        socket.wf(),
        socket.protocol == Protocol::Udp,
        range.len() > 0,
        lowercase(range[0]) == "remote-port"@,
    ensures
        !range_matches(range, socket, ip_version),
{
    reveal_strlit("remote-port");
    reveal_strlit("pid");
    reveal_strlit("port");
    assert("remote-port"@.len() != "pid"@.len());
    assert("remote-port"@.len() != "port"@.len());
}

/// Whether an optional text denotes a value of the kind `T`.
pub open spec fn is_readable<T: RangeValue>(text: Option<Seq<char>>) -> bool {
    text is Some && T::text_rank(text->0) is Some
}

/// Tells of each bound of a range query whether it is there and denotes a
/// value of the kind `T`.
pub fn validate_range_fields<T: RangeValue>(fields: (Option<String>, Option<String>)) -> (valid: (
    bool,
    bool,
))
    ensures
        valid.0 == is_readable::<T>(crate::socket::text_view(fields.0)),
        valid.1 == is_readable::<T>(crate::socket::text_view(fields.1)),
{
    let min_valid = match &fields.0 {
        Some(text) => T::parse_text(text.as_str()).is_some(),
        None => false,
    };
    let max_valid = match &fields.1 {
        Some(text) => T::parse_text(text.as_str()).is_some(),
        None => false,
    };
    (min_valid, max_valid)
}

/// The text at `index` of a range query, or the empty text where the query
/// is too short.
pub open spec fn range_text(range: Seq<Seq<char>>, index: int) -> Seq<char> {
    if 0 <= index < range.len() {
        range[index]
    } else {
        Seq::empty()
    }
}

/// Whether the bound at `index` of a range query is there and can be read
/// as a value of the field `field`, given in lower case: a number that fits
/// the field, or an address of the IP version in use.
pub open spec fn bound_is_valid(
    range: Seq<Seq<char>>,
    index: int,
    field: Seq<char>,
    ip_version: Option<u8>,
) -> bool {
    if !(0 <= index < range.len()) {
        false
    } else if field == "pid"@ {
        u32::text_rank(range[index]) is Some
    } else if field == "port"@ || field == "remote-port"@ {
        u16::text_rank(range[index]) is Some
    } else if field == "uptime"@ {
        u64::text_rank(range[index]) is Some
    } else {
        is_valid_address(range[index], ip_version)
    }
}

/// Whether `field`, given in lower case, names a field that a range query
/// can bound.
pub open spec fn is_range_field(field: Seq<char>) -> bool {
    field == "pid"@ || field == "port"@ || field == "remote-port"@ || field == "uptime"@ || field
        == "local-address"@ || field == "remote-address"@
}

/// Why a range query is rejected, if it is: the field is checked first,
/// then the lower bound, then the upper bound. The failure holds the
/// offending text as it was given.
pub open spec fn range_error(range: Seq<Seq<char>>, ip_version: Option<u8>) -> Option<
    RpdErrorView,
> {
    let field = lowercase(range_text(range, 0));
    if range.len() == 0 || !is_range_field(field) {
        Some(RpdErrorView::InvalidRangeFieldErr(range_text(range, 0)))
    } else if !bound_is_valid(range, 1, field, ip_version) {
        Some(RpdErrorView::InvalidRangeMinErr(range_text(range, 1), range_text(range, 0)))
    } else if !bound_is_valid(range, 2, field, ip_version) {
        Some(RpdErrorView::InvalidRangeMaxErr(range_text(range, 2), range_text(range, 0)))
    } else {
        None
    }
}

/// A copy of the text at `index` of a range query, or the empty text where
/// the query is too short.
fn copy_range_text(range_args: &Vec<String>, index: usize) -> (text: String)
    ensures
        text@ == range_text(range_args.deep_view(), index as int),
{
    if index < range_args.len() {
        range_args[index].clone()
    } else {
        String::new()
    }
}

/// Checks one bound of a range query on the field `field`.
fn check_bound(range_args: &Vec<String>, index: usize, field: &str, ip_version: &Option<u8>) -> (valid:
    bool)
    ensures
        valid == bound_is_valid(range_args.deep_view(), index as int, field@, *ip_version),
{
    if index >= range_args.len() {
        return false;
    }
    let text = &range_args[index];
    if str_equal(field, "pid") {
        u32::parse_text(text.as_str()).is_some()
    } else if str_equal(field, "port") || str_equal(field, "remote-port") {
        u16::parse_text(text.as_str()).is_some()
    } else if str_equal(field, "uptime") {
        u64::parse_text(text.as_str()).is_some()
    } else {
        validate_address(text, ip_version)
    }
}

/// Checks that a range query names a range field and that both of its
/// bounds can be read as values of that field.
pub fn validate_range_args(range_args: &Vec<String>, ip_version: &Option<u8>) -> (checked: Result<
    (),
    RpdError,
>)
    ensures
        match checked {
            Ok(_) => range_error(range_args.deep_view(), *ip_version) is None,
            Err(e) => range_error(range_args.deep_view(), *ip_version) == Some(e@),
        },
{
    if range_args.len() == 0 {
        return Err(RpdError::InvalidRangeFieldErr(String::new()));
    }
    let lowered = to_lowercase(range_args[0].as_str());
    let field = lowered.as_str();
    let known = str_equal(field, "pid") || str_equal(field, "port") || str_equal(
        field,
        "remote-port",
    ) || str_equal(field, "uptime") || str_equal(field, "local-address") || str_equal(
        field,
        "remote-address",
    );
    if !known {
        return Err(RpdError::InvalidRangeFieldErr(copy_range_text(range_args, 0)));
    }
    if !check_bound(range_args, 1, field, ip_version) {
        return Err(
            RpdError::InvalidRangeMinErr(
                copy_range_text(range_args, 1),
                copy_range_text(range_args, 0),
            ),
        );
    }
    if !check_bound(range_args, 2, field, ip_version) {
        return Err(
            RpdError::InvalidRangeMaxErr(
                copy_range_text(range_args, 2),
                copy_range_text(range_args, 0),
            ),
        );
    }
    Ok(())
}

} // verus!
