//! Texts for the output: ages of connections and links to folders.

use vstd::prelude::*;
use vstd::string::StringExecFns;
use crate::decimal::{decimal_text, push_decimal};
use crate::rpderror::{RpdError, RpdErrorView};
use crate::text::{chars_of, lowercase, str_equal, to_lowercase};

verus! {

/// `count` times the character `fill`.
pub open spec fn filling(fill: char, count: int) -> Seq<char> {
    Seq::new(
        if count > 0 {
            count as nat
        } else {
            0
        },
        |i: int| fill,
    )
}

/// The decimal numeral of `n`, with `fill` in front of it up to a length
/// of two.
pub open spec fn two_wide(n: nat, fill: char) -> Seq<char> {
    filling(fill, 2 - decimal_text(n).len()) + decimal_text(n)
}

/// An age as a clock: hours, minutes and seconds, each of at least two
/// digits.
pub open spec fn clock_text(uptime: nat) -> Seq<char> {
    two_wide(uptime / 3600, '0') + seq![':'] + two_wide(uptime % 3600 / 60, '0') + seq![':']
        + two_wide(uptime % 60, '0')
}

/// An age in words: the days, then the hours, minutes and seconds, each at
/// least two wide. The hours are all the hours of the age, those of its days
/// included.
pub open spec fn human_text(uptime: nat) -> Seq<char> {
    two_wide(uptime / 3600 / 24, ' ') + seq!['d', ' '] + two_wide(uptime / 3600, ' ') + seq![
        'h',
        ' ',
    ] + two_wide(uptime % 3600 / 60, ' ') + seq!['m', ' '] + two_wide(uptime % 60, ' ')
        + seq!['s']
}

/// An age in the format that `format`, given in lower case, names; none for
/// a name that is no format.
pub open spec fn formatted(format: Seq<char>, uptime: nat) -> Option<Seq<char>> {
    if format == "clock"@ {
        Some(clock_text(uptime))
    } else if format == "human"@ {
        Some(human_text(uptime))
    } else if format == "hours"@ {
        Some(decimal_text(uptime / 3600).push('h'))
    } else if format == "minutes"@ {
        Some(decimal_text(uptime / 60).push('m'))
    } else if format == "seconds"@ {
        Some(decimal_text(uptime).push('s'))
    } else {
        None
    }
}

/// Appends the decimal numeral of `n`, at least two wide, to `out`.
fn push_two_wide(out: &mut String, n: u64, fill: char)
    ensures
        final(out)@ == old(out)@ + two_wide(n as nat, fill),
{
    proof {
        crate::decimal::lemma_decimal_text_denotes(n as nat);
        if n >= 10 {
            crate::decimal::lemma_decimal_text_denotes((n / 10) as nat);
        }
    }
    if n < 10 {
        out.push(fill);
        assert(decimal_text(n as nat).len() == 1);
        assert(filling(fill, 1) =~= seq![fill]);
    } else {
        assert(decimal_text(n as nat).len() >= 2);
        assert(filling(fill, 2 - decimal_text(n as nat).len()) =~= Seq::<char>::empty());
    }
    let ghost padded = out@;
    push_decimal(out, n);
    assert(out@ =~= old(out)@ + two_wide(n as nat, fill));
}

/// Writes an age as a clock.
fn clock(uptime: u64) -> (text: String)
    ensures
        text@ == clock_text(uptime as nat),
{
    let mut text = String::new();
    push_two_wide(&mut text, uptime / 3600, '0');
    text.push(':');
    push_two_wide(&mut text, uptime % 3600 / 60, '0');
    text.push(':');
    push_two_wide(&mut text, uptime % 60, '0');
    assert(text@ =~= clock_text(uptime as nat));
    text
}

/// Writes an age in words.
fn human(uptime: u64) -> (text: String)
    ensures
        text@ == human_text(uptime as nat),
{
    let mut text = String::new();
    push_two_wide(&mut text, uptime / 3600 / 24, ' ');
    text.push('d');
    text.push(' ');
    push_two_wide(&mut text, uptime / 3600, ' ');
    text.push('h');
    text.push(' ');
    push_two_wide(&mut text, uptime % 3600 / 60, ' ');
    text.push('m');
    text.push(' ');
    push_two_wide(&mut text, uptime % 60, ' ');
    text.push('s');
    assert(text@ =~= human_text(uptime as nat));
    text
}

/// Writes a number followed by a unit.
fn with_unit(n: u64, unit: char) -> (text: String)
    ensures
        text@ == decimal_text(n as nat).push(unit),
{
    let mut text = String::new();
    push_decimal(&mut text, n);
    text.push(unit);
    assert(text@ =~= decimal_text(n as nat).push(unit));
    text
}

/// Writes the age `socket_uptime`, in seconds, in the format that
/// `uptime_arg` names in any case: `clock`, `human`, `hours`, `minutes` or
/// `seconds`. Without a format the age is written as a clock. A name that is
/// no format is rejected as it was given.
pub fn get_formatted_uptime(uptime_arg: &Option<String>, socket_uptime: u64) -> (text: Result<
    String,
    RpdError,
>)
    ensures
        match text {
            Ok(t) => match *uptime_arg {
                Some(format) => formatted(lowercase(format@), socket_uptime as nat) == Some(t@),
                None => t@ == clock_text(socket_uptime as nat),
            },
            Err(e) => uptime_arg is Some && formatted(
                lowercase(uptime_arg->0@),
                socket_uptime as nat,
            ) is None && e@ == RpdErrorView::InvalidUptimeFormatErr(uptime_arg->0@),
        },
{
    match uptime_arg {
        None => Ok(clock(socket_uptime)),
        Some(format) => {
            let lowered = to_lowercase(format.as_str());
            let name = lowered.as_str();
            if str_equal(name, "clock") {
                Ok(clock(socket_uptime))
            } else if str_equal(name, "human") {
                Ok(human(socket_uptime))
            } else if str_equal(name, "hours") {
                Ok(with_unit(socket_uptime / 3600, 'h'))
            } else if str_equal(name, "minutes") {
                Ok(with_unit(socket_uptime / 60, 'm'))
            } else if str_equal(name, "seconds") {
                Ok(with_unit(socket_uptime, 's'))
            } else {
                Err(RpdError::InvalidUptimeFormatErr(format.clone()))
            }
        },
    }
}

/// The position behind the last `/` or `\` of `path`; zero where it has
/// neither.
pub open spec fn folder_end(path: Seq<char>) -> int
    decreases path.len(),
{
    if path.len() == 0 {
        0
    } else if path.last() == '/' || path.last() == '\\' {
        path.len() as int
    } else {
        folder_end(path.drop_last())
    }
}

/// The folder that holds the file at `path`, with `/` between its parts:
/// the path up to its last separator, `/` or `\`, and without it; the empty
/// text for a path without a separator.
pub open spec fn folder_of(path: Seq<char>) -> Seq<char> {
    if folder_end(path) == 0 {
        Seq::empty()
    } else {
        path.take(folder_end(path) - 1).map_values(|c: char| forward(c))
    }
}

/// The escape sequence that starts a terminal link to `target`.
pub open spec fn link_start(target: Seq<char>) -> Seq<char> {
    seq!['\u{1b}', ']', '8', ';', ';'] + target + seq!['\u{1b}', '\\']
}

/// A terminal link with the label `text` to the folder of `url`, with
/// spaces in front of it up to the width `width`, counted in bytes of the
/// label. Without a `url` the text stands as it is.
pub open spec fn hyperlink(text: Seq<char>, text_len: nat, url: Option<Seq<char>>, width: nat) -> Seq<
    char,
> {
    match url {
        Some(u) => filling(' ', width - text_len) + link_start(folder_of(u)) + text + link_start(
            Seq::empty(),
        ),
        None => text,
    }
}

/// The character of a folder that stands for `c` of a path.
pub open spec fn forward(c: char) -> char {
    if c == '\\' {
        '/'
    } else {
        c
    }
}

/// Writes the folder that holds the file at `path`.
pub fn folder(path: &str) -> (text: String)
    ensures
        text@ == folder_of(path@),
{
    let chars = chars_of(path);
    let mut end: usize = chars.len();
    assert(chars@.take(end as int) =~= chars@);
    while end > 0 && chars[end - 1] != '/' && chars[end - 1] != '\\'
        invariant
            end <= chars.len(),
            folder_end(chars@) == folder_end(chars@.take(end as int)),
        decreases end,
    {
        assert(chars@.take(end as int).drop_last() =~= chars@.take(end - 1));
        end = end - 1;
    }
    let stop: usize = if end == 0 {
        0
    } else {
        end - 1
    };
    let mut text = String::new();
    let mut i: usize = 0;
    while i < stop
        invariant
            i <= stop <= chars.len(),
            text@ == chars@.take(i as int).map_values(|c: char| forward(c)),
        decreases stop - i,
    {
        let c: char = chars[i];
        if c == '\\' {
            text.push('/');
        } else {
            text.push(c);
        }
        assert(chars@.take(i + 1) =~= chars@.take(i as int).push(c));
        assert(text@ =~= chars@.take(i + 1).map_values(|c: char| forward(c)));
        i = i + 1;
    }
    assert(text@ =~= folder_of(path@));
    text
}

/// Appends `count` spaces to `out`.
fn push_spaces(out: &mut String, count: usize)
    ensures
        final(out)@ == old(out)@ + filling(' ', count as int),
{
    let mut done: usize = 0;
    assert(out@ =~= old(out)@ + filling(' ', 0));
    while done < count
        invariant
            done <= count,
            out@ == old(out)@ + filling(' ', done as int),
        decreases count - done,
    {
        out.push(' ');
        done = done + 1;
        assert(out@ =~= old(out)@ + filling(' ', done as int));
    }
}

/// Appends the escape sequence that starts a terminal link to `target`.
fn push_link_start(out: &mut String, target: &str)
    ensures
        final(out)@ == old(out)@ + link_start(target@),
{
    out.push('\u{1b}');
    out.push(']');
    out.push('8');
    out.push(';');
    out.push(';');
    out.append(target);
    out.push('\u{1b}');
    out.push('\\');
    assert(out@ =~= old(out)@ + link_start(target@));
}

/// Writes the label `text` as a terminal link to the folder that holds the
/// file `url`, padded on the left to `width`.
pub fn ansi_hyperlink(text: &str, url: Option<&str>, width: usize) -> (link: String)
    ensures
        link@ == hyperlink(
            text@,
            text.len() as nat,
            match url {
                Some(u) => Some(u@),
                None => None,
            },
            width as nat,
        ),
{
    match url {
        None => String::from_str(text),
        Some(url) => {
            let target = folder(url);
            let length: usize = text.len();
            let mut link = String::new();
            if width > length {
                push_spaces(&mut link, width - length);
            } else {
                assert(filling(' ', width - length) =~= Seq::<char>::empty());
            }
            assert(link@ =~= filling(' ', width - length));
            push_link_start(&mut link, target.as_str());
            link.append(text);
            push_link_start(&mut link, "");
            proof {
                reveal_strlit("");
                assert(""@ =~= Seq::<char>::empty());
                assert(link@ =~= hyperlink(text@, text.len() as nat, Some(url@), width as nat));
            }
            link
        },
    }
}

} // verus!
