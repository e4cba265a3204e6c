//! Stored default values and how they fill the options that a run leaves
//! unset.

use vstd::prelude::*;
use vstd::string::StringExecFns;
use crate::args::Args;
use crate::decimal::{decimal_text, push_decimal};
use crate::rpderror::{RpdError, RpdErrorView};
use crate::socket::{clone_text, text_view};
use crate::text::{
    chars_of,
    join,
    joined,
    lemma_split_nonempty,
    skip_whitespace,
    split,
    split_bounds,
    str_equal,
    string_of,
    trim,
    trim_bounds,
    trim_start,
};

verus! {

/// Default values for the options of a run.
#[derive(Clone, Debug, Default)]
pub struct Config {
    pub port: Option<u16>,
    pub remote_port: Option<u16>,
    pub mode: Option<String>,
    pub process_name: Option<String>,
    pub pid: Option<u32>,
    pub state: Option<String>,
    pub ip_version: Option<u8>,
    pub local_address: Option<String>,
    pub remote_address: Option<String>,
    pub uptime_format: Option<String>,
}

/// The option that is set, or else its default.
pub open spec fn or_default<T>(option: Option<T>, default: Option<T>) -> Option<T> {
    if option is Some {
        option
    } else {
        default
    }
}

/// The options `args` with every unset option that has a default in
/// `config` set to that default.
pub open spec fn with_defaults(args: Args, config: Config) -> Args {
    Args {
        port: or_default(args.port, config.port),
        remote_port: or_default(args.remote_port, config.remote_port),
        mode: or_default(args.mode, config.mode),
        process_name: or_default(args.process_name, config.process_name),
        pid: or_default(args.pid, config.pid),
        state: or_default(args.state, config.state),
        ip_version: or_default(args.ip_version, config.ip_version),
        local_address: or_default(args.local_address, config.local_address),
        remote_address: or_default(args.remote_address, config.remote_address),
        uptime_format: or_default(args.uptime_format, config.uptime_format),
        ..args
    }
}

/// The option that is set, or else its default.
fn first_set<T>(option: Option<T>, default: Option<T>) -> (chosen: Option<T>)
    ensures
        chosen == or_default(option, default),
{
    if option.is_some() {
        option
    } else {
        default
    }
}

/// Fills the unset options of `args` from `config`, where there is one. An
/// option that is set keeps its value.
pub fn apply_config(config: Option<Config>, args: &mut Args)
    ensures
        *final(args) == match config {
            Some(c) => with_defaults(*old(args), c),
            None => *old(args),
        },
{
    if let Some(config) = config {
        args.port = first_set(args.port, config.port);
        args.remote_port = first_set(args.remote_port, config.remote_port);
        args.mode = first_set(args.mode.take(), config.mode);
        args.process_name = first_set(args.process_name.take(), config.process_name);
        args.pid = first_set(args.pid, config.pid);
        args.state = first_set(args.state.take(), config.state);
        args.ip_version = first_set(args.ip_version, config.ip_version);
        args.local_address = first_set(args.local_address.take(), config.local_address);
        args.remote_address = first_set(args.remote_address.take(), config.remote_address);
        args.uptime_format = first_set(args.uptime_format.take(), config.uptime_format);
    }
}

/// The content of a settings file in which nothing is set: every setting is
/// there as a comment, with an example value.
pub fn get_default_config_content() -> (content: String)
    ensures
        content@ == default_config_text(),
{
    String::from_str(
        "\n# Default configuration for r-port-doctor\n# Uncomment and set the values you want to use as default.\n\n# port = 80\n\n# remote_port = 443\n\n# mode = \"TCP\"\n\n# process_name = \"svchost.exe\"\n\n# pid = 4\n\n# state = \"ESTABLISHED\"\n\n# ip_version = 4\n\n# local_address = \"127.0.0.1\"\n\n# remote_address = \"0.0.0.0\"\n\n# uptime_format = \"human\"\n    ",
    )
}

/// The text of a settings file in which nothing is set.
pub open spec fn default_config_text() -> Seq<char> {
    "\n# Default configuration for r-port-doctor\n# Uncomment and set the values you want to use as default.\n\n# port = 80\n\n# remote_port = 443\n\n# mode = \"TCP\"\n\n# process_name = \"svchost.exe\"\n\n# pid = 4\n\n# state = \"ESTABLISHED\"\n\n# ip_version = 4\n\n# local_address = \"127.0.0.1\"\n\n# remote_address = \"0.0.0.0\"\n\n# uptime_format = \"human\"\n    "@
}

/// The kind of value that the setting `key` holds: `Some(true)` for a text,
/// `Some(false)` for a number, and none for a key that is no setting.
pub open spec fn setting_kind(key: Seq<char>) -> Option<bool> {
    if key == "port"@ || key == "remote_port"@ || key == "pid"@ || key == "ip_version"@ {
        Some(false)
    } else if key == "mode"@ || key == "process_name"@ || key == "state"@ || key
        == "local_address"@ || key == "remote_address"@ || key == "uptime_format"@ {
        Some(true)
    } else {
        None
    }
}

/// Tells the kind of value that the setting `key` holds.
pub fn kind_of_setting(key: &str) -> (kind: Option<bool>)
    ensures
        kind == setting_kind(key@),
{
    if str_equal(key, "port") || str_equal(key, "remote_port") || str_equal(key, "pid")
        || str_equal(key, "ip_version") {
        Some(false)
    } else if str_equal(key, "mode") || str_equal(key, "process_name") || str_equal(key, "state")
        || str_equal(key, "local_address") || str_equal(key, "remote_address") || str_equal(
        key,
        "uptime_format",
    ) {
        Some(true)
    } else {
        None
    }
}

/// The decimal numeral of an optional number.
pub open spec fn number_text(value: Option<nat>) -> Option<Seq<char>> {
    match value {
        Some(n) => Some(decimal_text(n)),
        None => None,
    }
}

/// The value that `config` holds for the setting `key`, as text; none for a
/// setting without a value and for a key that is no setting.
pub open spec fn setting_text(config: Config, key: Seq<char>) -> Option<Seq<char>> {
    if key == "port"@ {
        number_text(
            match config.port {
                Some(v) => Some(v as nat),
                None => None,
            },
        )
    } else if key == "remote_port"@ {
        number_text(
            match config.remote_port {
                Some(v) => Some(v as nat),
                None => None,
            },
        )
    } else if key == "mode"@ {
        text_view(config.mode)
    } else if key == "process_name"@ {
        text_view(config.process_name)
    } else if key == "pid"@ {
        number_text(
            match config.pid {
                Some(v) => Some(v as nat),
                None => None,
            },
        )
    } else if key == "state"@ {
        text_view(config.state)
    } else if key == "ip_version"@ {
        number_text(
            match config.ip_version {
                Some(v) => Some(v as nat),
                None => None,
            },
        )
    } else if key == "local_address"@ {
        text_view(config.local_address)
    } else if key == "remote_address"@ {
        text_view(config.remote_address)
    } else if key == "uptime_format"@ {
        text_view(config.uptime_format)
    } else {
        None
    }
}

/// Writes an optional number in decimal.
fn write_number(value: Option<u64>) -> (text: Option<String>)
    ensures
        text_view(text) == number_text(
            match value {
                Some(v) => Some(v as nat),
                None => None,
            },
        ),
{
    match value {
        Some(n) => {
            let mut text = String::new();
            push_decimal(&mut text, n);
            assert(text@ =~= decimal_text(n as nat));
            Some(text)
        },
        None => None,
    }
}

/// The value that `config` holds for the setting `key`, given in lower
/// case, as text.
pub fn config_value(config: &Config, key: &str) -> (value: Option<String>)
    ensures
        text_view(value) == setting_text(*config, key@),
{
    if str_equal(key, "port") {
        write_number(
            match config.port {
                Some(v) => Some(v as u64),
                None => None,
            },
        )
    } else if str_equal(key, "remote_port") {
        write_number(
            match config.remote_port {
                Some(v) => Some(v as u64),
                None => None,
            },
        )
    } else if str_equal(key, "mode") {
        clone_text(&config.mode)
    } else if str_equal(key, "process_name") {
        clone_text(&config.process_name)
    } else if str_equal(key, "pid") {
        write_number(
            match config.pid {
                Some(v) => Some(v as u64),
                None => None,
            },
        )
    } else if str_equal(key, "state") {
        clone_text(&config.state)
    } else if str_equal(key, "ip_version") {
        write_number(
            match config.ip_version {
                Some(v) => Some(v as u64),
                None => None,
            },
        )
    } else if str_equal(key, "local_address") {
        clone_text(&config.local_address)
    } else if str_equal(key, "remote_address") {
        clone_text(&config.remote_address)
    } else if str_equal(key, "uptime_format") {
        clone_text(&config.uptime_format)
    } else {
        None
    }
}

/// A piece of text without the carriage return at its end, if it has one.
pub open spec fn chomp(piece: Seq<char>) -> Seq<char> {
    if piece.len() > 0 && piece.last() == '\r' {
        piece.drop_last()
    } else {
        piece
    }
}

/// The lines of a text. A line ends with a line feed, or with a carriage
/// return and a line feed, and is given without them. What follows the last
/// line feed is a line too, unless it is empty.
pub open spec fn lines_of(content: Seq<char>) -> Seq<Seq<char>> {
    let pieces = split(content, '\n');
    let ended = pieces.drop_last().map_values(|p: Seq<char>| chomp(p));
    if pieces.last().len() == 0 {
        ended
    } else {
        ended.push(pieces.last())
    }
}

/// Reads the lines of a text.
pub fn read_lines(content: &str) -> (lines: Vec<String>)
    ensures
        lines.deep_view() == lines_of(content@),
{
    let chars = chars_of(content);
    assert(chars@.subrange(0, chars.len() as int) =~= content@);
    let bounds = split_bounds(&chars, 0, chars.len(), '\n');
    let ghost pieces = split(content@, '\n');
    proof {
        lemma_split_nonempty(content@, '\n');
    }
    let last: usize = bounds.len() - 1;
    let mut lines: Vec<String> = Vec::new();
    let mut k: usize = 0;
    while k < last
        invariant
            k <= last,
            last + 1 == bounds.len(),
            bounds.len() == pieces.len(),
            forall|j: int|
                0 <= j < bounds.len() ==> {
                    &&& (#[trigger] bounds[j]).0 <= bounds[j].1 <= chars.len()
                    &&& chars@.subrange(bounds[j].0 as int, bounds[j].1 as int) == pieces[j]
                },
            lines.deep_view() == pieces.take(k as int).map_values(|p: Seq<char>| chomp(p)),
        decreases last - k,
    {
        let from: usize = bounds[k].0;
        let to: usize = bounds[k].1;
        let end: usize = if to > from && chars[to - 1] == '\r' {
            to - 1
        } else {
            to
        };
        let ghost before = lines.deep_view();
        let line = string_of(&chars, from, end);
        proof {
            assert(chars@.subrange(from as int, end as int) =~= chomp(pieces[k as int]));
        }
        lines.push(line);
        proof {
            assert(lines.deep_view() =~= before.push(chomp(pieces[k as int])));
            assert(lines.deep_view() =~= pieces.take(k + 1).map_values(|p: Seq<char>| chomp(p)));
        }
        k = k + 1;
    }
    proof {
        assert(pieces.take(last as int) =~= pieces.drop_last());
    }
    if bounds[last].1 > bounds[last].0 {
        let ghost before = lines.deep_view();
        let line = string_of(&chars, bounds[last].0, bounds[last].1);
        lines.push(line);
        assert(lines.deep_view() =~= before.push(pieces.last()));
    }
    lines
}

/// What a line holds behind the white space at its start, an optional `#`
/// and more white space, up to the white space at its end.
pub open spec fn named_part(line: Seq<char>) -> Seq<char> {
    let trimmed = trim(line);
    let body = if trimmed.len() > 0 && trimmed[0] == '#' {
        trimmed.drop_first()
    } else {
        trimmed
    };
    trim_start(body)
}

/// Whether `line` sets, or as a comment names, the setting `key`: after an
/// optional `#` and optional white space it holds the key, then optional
/// white space and `=`. White space around the line does not count.
pub open spec fn sets_key(line: Seq<char>, key: Seq<char>) -> bool {
    let named = named_part(line);
    &&& named.len() >= key.len()
    &&& named.take(key.len() as int) == key
    &&& trim_start(named.skip(key.len() as int)).len() > 0
    &&& trim_start(named.skip(key.len() as int))[0] == '='
}

/// Tells whether `line` sets, or as a comment names, the setting `key`.
pub fn line_sets_key(line: &str, key: &str) -> (sets: bool)
    ensures
        sets == sets_key(line@, key@),
{
    let chars = chars_of(line);
    let name = chars_of(key);
    assert(chars@.subrange(0, chars.len() as int) =~= line@);
    let (start, end) = trim_bounds(&chars, 0, chars.len());
    let ghost trimmed = trim(line@);
    let body_start: usize = if start < end && chars[start] == '#' {
        start + 1
    } else {
        start
    };
    let ghost body = chars@.subrange(body_start as int, end as int);
    proof {
        assert(trimmed == chars@.subrange(start as int, end as int));
        if start < end && chars[start as int] == '#' {
            assert(trimmed[0] == '#');
            assert(trimmed.drop_first() =~= body);
        } else if start < end {
            assert(trimmed[0] == chars[start as int]);
        }
    }
    let at: usize = skip_whitespace(&chars, body_start, end);
    let ghost named = chars@.subrange(at as int, end as int);
    if end - at < name.len() {
        return false;
    }
    let mut i: usize = 0;
    while i < name.len()
        invariant
            i <= name.len(),
            at + name.len() <= end <= chars.len(),
            name@ == key@,
            named == chars@.subrange(at as int, end as int),
            named == named_part(line@),
            forall|j: int| 0 <= j < i ==> chars@[at + j] == name@[j],
        decreases name.len() - i,
    {
        if chars[at + i] != name[i] {
            assert(named.take(name.len() as int)[i as int] != key@[i as int]);
            return false;
        }
        i = i + 1;
    }
    assert(named.take(name.len() as int) =~= key@);
    let after: usize = skip_whitespace(&chars, at + name.len(), end);
    proof {
        assert(chars@.subrange(at + name.len(), end as int) =~= named.skip(name.len() as int));
        if after < end {
            assert(chars@.subrange(after as int, end as int)[0] == chars@[after as int]);
        }
    }
    after < end && chars[after] == '='
}

/// The line that gives the setting `key` the value `value`: a text between
/// double quotes, a number as it is. Without a value, the line names the
/// setting as a comment.
pub open spec fn setting_line(key: Seq<char>, value: Option<Seq<char>>, is_text: bool) -> Seq<
    char,
> {
    match value {
        None => seq!['#', ' '] + key + seq![' ', '='],
        Some(v) => if is_text {
            key + seq![' ', '=', ' ', '"'] + v + seq!['"']
        } else {
            key + seq![' ', '=', ' '] + v
        },
    }
}

/// Writes the line that gives the setting `key` the value `value`.
pub fn write_setting_line(key: &str, value: Option<&String>, is_text: bool) -> (line: String)
    ensures
        line@ == setting_line(
            key@,
            match value {
                Some(v) => Some(v@),
                None => None,
            },
            is_text,
        ),
{
    let mut line = String::new();
    match value {
        None => {
            line.push('#');
            line.push(' ');
            line.append(key);
            line.push(' ');
            line.push('=');
            assert(line@ =~= seq!['#', ' '] + key@ + seq![' ', '=']);
        },
        Some(v) => {
            line.append(key);
            line.push(' ');
            line.push('=');
            line.push(' ');
            if is_text {
                line.push('"');
                line.append(v.as_str());
                line.push('"');
                assert(line@ =~= key@ + seq![' ', '=', ' ', '"'] + v@ + seq!['"']);
            } else {
                line.append(v.as_str());
                assert(line@ =~= key@ + seq![' ', '=', ' '] + v@);
            }
        },
    }
    line
}

/// Whether one of `lines` sets or names the setting `key`.
pub open spec fn key_is_set(lines: Seq<Seq<char>>, key: Seq<char>) -> bool {
    exists|i: int| 0 <= i < lines.len() && sets_key(#[trigger] lines[i], key)
}

/// The lines of a settings file after the setting `key` was given the line
/// `line`: every line that sets or names the key is replaced by `line`; where
/// there is none, `line` is added at the end.
pub open spec fn updated_lines(lines: Seq<Seq<char>>, key: Seq<char>, line: Seq<char>) -> Seq<
    Seq<char>,
> {
    let replaced = lines.map_values(
        |l: Seq<char>|
            if sets_key(l, key) {
                line
            } else {
                l
            },
    );
    if key_is_set(lines, key) {
        replaced
    } else {
        replaced.push(line)
    }
}

/// The content of a settings file after the setting `key` was given
/// `value`, or was reset where there is no value.
pub open spec fn updated_content(
    content: Seq<char>,
    key: Seq<char>,
    value: Option<Seq<char>>,
    is_text: bool,
) -> Seq<char> {
    joined(updated_lines(lines_of(content), key, setting_line(key, value, is_text)), '\n')
}

/// Gives the setting `key` the value `value` in the content of a settings
/// file, or resets it where there is no value, and returns the new content.
/// A key that is no setting is rejected.
pub fn set_config_value(content: &str, key: &str, value: Option<&String>) -> (updated: Result<
    String,
    RpdError,
>)
    ensures
        match updated {
            Ok(text) => setting_kind(key@) is Some && text@ == updated_content(
                content@,
                key@,
                match value {
                    Some(v) => Some(v@),
                    None => None,
                },
                setting_kind(key@)->0,
            ),
            Err(e) => setting_kind(key@) is None && e@ == RpdErrorView::InvalidConfigKeyErr(key@),
        },
{
    let is_text = match kind_of_setting(key) {
        Some(kind) => kind,
        None => {
            return Err(RpdError::InvalidConfigKeyErr(String::from_str(key)));
        },
    };
    let line = write_setting_line(key, value, is_text);
    let mut lines = read_lines(content);
    let ghost before = lines.deep_view();
    let ghost swap = |l: Seq<char>|
        if sets_key(l, key@) {
            line@
        } else {
            l
        };
    let mut found: bool = false;
    let mut i: usize = 0;
    while i < lines.len()
        invariant
            i <= lines.len(),
            lines@.len() == before.len(),
            swap == |l: Seq<char>|
                if sets_key(l, key@) {
                    line@
                } else {
                    l
                },
            found <==> key_is_set(before.take(i as int), key@),
            forall|j: int| 0 <= j < i ==> lines.deep_view()[j] == swap(before[j]),
            forall|j: int| i <= j < lines@.len() ==> lines.deep_view()[j] == before[j],
        decreases lines.len() - i,
    {
        let sets = line_sets_key(lines[i].as_str(), key);
        proof {
            let longer = before.take(i + 1);
            let shorter = before.take(i as int);
            if sets {
                assert(sets_key(longer[i as int], key@));
            }
            if key_is_set(shorter, key@) {
                let j = choose|j: int| 0 <= j < shorter.len() && sets_key(#[trigger] shorter[j], key@);
                assert(sets_key(longer[j], key@));
            }
            if key_is_set(longer, key@) && !sets {
                let j = choose|j: int| 0 <= j < longer.len() && sets_key(#[trigger] longer[j], key@);
                assert(sets_key(shorter[j], key@));
            }
        }
        let ghost earlier = lines.deep_view();
        if sets {
            found = true;
            lines.set(i, line.clone());
        }
        proof {
            assert forall|j: int| 0 <= j < i + 1 implies lines.deep_view()[j] == swap(
                before[j],
            ) by {
                if j < i {
                    assert(lines.deep_view()[j] == earlier[j]);
                } else {
                    assert(earlier[j] == before[j]);
                }
            }
            assert forall|j: int| i + 1 <= j < lines@.len() implies lines.deep_view()[j]
                == before[j] by {
                assert(lines.deep_view()[j] == earlier[j]);
            }
        }
        i = i + 1;
    }
    proof {
        assert(before.take(i as int) =~= before);
        assert(lines.deep_view() =~= before.map_values(swap));
    }
    if !found {
        let ghost replaced = lines.deep_view();
        lines.push(line);
        assert(lines.deep_view() =~= replaced.push(line@));
    }
    Ok(join(&lines, '\n'))
}

} // verus!
