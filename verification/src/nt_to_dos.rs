//! Kernel volume paths and the drive-letter paths that stand for them.
//!
//! A kernel path such as `\Device\HarddiskVolume3\Windows\notepad.exe`
//! starts with the name of a volume device. The host's device-name mapping
//! says which drive letter stands for each volume device.

use vstd::prelude::*;
use crate::text::{chars_of, str_equal, string_of};

verus! {

/// One line of the device-name mapping: the drive that stands for a volume
/// device.
pub struct DeviceEntry {
    pub device: String,
    pub drive: String,
}

/// The device-name mapping of the host, from volume device to drive.
pub struct DeviceMap {
    entries: Vec<DeviceEntry>,
}

/// The mapping that a list of entries stands for; a later entry for a device
/// replaces an earlier one.
pub open spec fn mapping_of(entries: Seq<DeviceEntry>) -> Map<Seq<char>, Seq<char>>
    decreases entries.len(),
{
    if entries.len() == 0 {
        Map::empty()
    } else {
        mapping_of(entries.drop_last()).insert(entries.last().device@, entries.last().drive@)
    }
}

impl View for DeviceMap {
    type V = Map<Seq<char>, Seq<char>>;

    closed spec fn view(&self) -> Map<Seq<char>, Seq<char>> {
        mapping_of(self.entries@)
    }
}

impl DeviceMap {
    /// The mapping without any device.
    pub fn new() -> (devices: DeviceMap)
        ensures
            devices@ == Map::<Seq<char>, Seq<char>>::empty(),
    {
        DeviceMap { entries: Vec::new() }
    }

    /// Records that `drive` stands for `device`, in place of any drive
    /// recorded for it before.
    pub fn insert(&mut self, device: String, drive: String)
        ensures
            final(self)@ == old(self)@.insert(device@, drive@),
    {
        self.entries.push(DeviceEntry { device, drive });
        assert(self.entries@.drop_last() =~= old(self).entries@);
    }

    /// The drive that stands for `device`, if one is recorded.
    pub fn get(&self, device: &str) -> (drive: Option<&String>)
        ensures
            drive is Some <==> self@.contains_key(device@),
            drive matches Some(d) ==> d@ == self@[device@],
    {
        let mut i: usize = self.entries.len();
        assert(self.entries@.take(i as int) =~= self.entries@);
        while i > 0
            invariant
                i <= self.entries.len(),
                self@.contains_key(device@) <==> mapping_of(
                    self.entries@.take(i as int),
                ).contains_key(device@),
                self@.contains_key(device@) ==> self@[device@] == mapping_of(
                    self.entries@.take(i as int),
                )[device@],
            decreases i,
        {
            i = i - 1;
            assert(self.entries@.take(i + 1).drop_last() =~= self.entries@.take(i as int));
            if str_equal(self.entries[i].device.as_str(), device) {
                return Some(&self.entries[i].drive);
            }
        }
        None
    }
}

/// The position of the `nth` occurrence of `sep` in `path`, counting from
/// one; the length of `path` if it has fewer.
pub open spec fn separator_at(path: Seq<char>, sep: char, nth: nat) -> int
    decreases path.len(),
{
    if path.len() == 0 {
        0
    } else if path[0] == sep {
        if nth <= 1 {
            0
        } else {
            1 + separator_at(path.drop_first(), sep, (nth - 1) as nat)
        }
    } else {
        1 + separator_at(path.drop_first(), sep, nth)
    }
}

/// The volume device that a kernel path names: the text before its third
/// backslash, or all of it.
pub open spec fn nt_device(path: Seq<char>) -> Seq<char> {
    path.take(separator_at(path, '\\', 3))
}

/// The drive-letter form of a kernel path: the drive of its volume device,
/// then the rest of the path. There is none where the mapping does not know
/// the device.
pub open spec fn dos_path(path: Seq<char>, devices: Map<Seq<char>, Seq<char>>) -> Option<
    Seq<char>,
> {
    let device = nt_device(path);
    if devices.contains_key(device) {
        Some(devices[device] + path.skip(device.len() as int))
    } else {
        None
    }
}

/// Turns the kernel path `nt_path` into its drive-letter form.
pub fn to_dos_path(nt_path: &str, devices: &DeviceMap) -> (path: Option<String>)
    ensures
        path is Some <==> dos_path(nt_path@, devices@) is Some,
        path matches Some(p) ==> dos_path(nt_path@, devices@) == Some(p@),
{
    let chars = chars_of(nt_path);
    let mut cut: usize = 0;
    let mut left: usize = 3;
    assert(chars@.skip(0) =~= chars@);
    while cut < chars.len() && !(chars[cut] == '\\' && left == 1)
        invariant
            cut <= chars.len(),
            1 <= left <= 3,
            separator_at(chars@, '\\', 3) == cut + separator_at(
                chars@.skip(cut as int),
                '\\',
                left as nat,
            ),
        decreases chars.len() - cut,
    {
        assert(chars@.skip(cut as int).drop_first() =~= chars@.skip(cut + 1));
        if chars[cut] == '\\' {
            left = left - 1;
        }
        cut = cut + 1;
    }
    assert(cut == separator_at(chars@, '\\', 3));
    let device = string_of(&chars, 0, cut);
    assert(chars@.subrange(0, cut as int) =~= nt_device(nt_path@));
    match devices.get(device.as_str()) {
        Some(drive) => {
            let mut path = drive.clone();
            let mut i: usize = cut;
            while i < chars.len()
                invariant
                    cut <= i <= chars.len(),
                    path@ == drive@ + chars@.subrange(cut as int, i as int),
                decreases chars.len() - i,
            {
                path.push(chars[i]);
                i = i + 1;
            }
            assert(chars@.subrange(cut as int, chars.len() as int) =~= nt_path@.skip(
                cut as int,
            ));
            Some(path)
        },
        None => None,
    }
}

} // verus!
