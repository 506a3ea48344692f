use vstd::prelude::*;
use crate::text::{append_decimal, decimal, same_text};

verus! {

/// Relies on `std::path::Path::file_name`: the final component of a path, if any.
pub uninterp spec fn file_name_of(p: Seq<char>) -> Option<Seq<char>>;

/// The leaf folder name of a path, empty when the path has no final component.
pub open spec fn folder_name(p: Seq<char>) -> Seq<char> {
    match file_name_of(p) {
        Some(n) => n,
        None => Seq::empty(),
    }
}

/// Relies on `std::path::Path::file_name`, read back as a `str`.
#[verifier::external_body]
fn path_file_name(path: &str) -> (r: Option<&str>)
    ensures
        r matches Some(n) ==> file_name_of(path@) == Some(n@),
        r is None ==> file_name_of(path@) is None,
{
    std::path::Path::new(path).file_name().and_then(|name| name.to_str())
}

pub fn get_folder_name(path: &str) -> (r: &str)
    ensures
        r@ == folder_name(path@),
{
    match path_file_name(path) {
        Some(n) => n,
        None => {
            proof { reveal_strlit(""); }
            ""
        },
    }
}

} // verus!

verus! {

/// Joins text parts with single spaces.
pub open spec fn joined(parts: Seq<Seq<char>>) -> Seq<char>
    decreases parts.len(),
{
    if parts.len() == 0 {
        Seq::empty()
    } else if parts.len() == 1 {
        parts[0]
    } else {
        joined(parts.drop_last()) + " "@ + parts.last()
    }
}

/// The non-zero components among whole days, hours and minutes of `secs`,
/// each as its number followed by its unit letter.
pub open spec fn duration_parts(secs: nat) -> Seq<Seq<char>> {
    let days = secs / 86400;
    let hours = (secs % 86400) / 3600;
    let minutes = (secs % 3600) / 60;
    (if days > 0 { seq![decimal(days) + "d"@] } else { Seq::empty() })
        + (if hours > 0 { seq![decimal(hours) + "h"@] } else { Seq::empty() })
        + (if minutes > 0 { seq![decimal(minutes) + "m"@] } else { Seq::empty() })
}

/// How long ago something happened, `secs` seconds back.
pub open spec fn duration_text(secs: nat) -> Seq<char> {
    if duration_parts(secs).len() == 0 {
        "just now"@
    } else {
        joined(duration_parts(secs)) + " ago"@
    }
}

fn push_part(s: &mut String, parts: Ghost<Seq<Seq<char>>>, first: bool, n: u64, unit: &str)
    requires
        old(s)@ == joined(parts@),
        first == (parts@.len() == 0),
    ensures
        final(s)@ == joined(parts@.push(decimal(n as nat) + unit@)),
{
    if !first {
        s.append(" ");
    }
    append_decimal(s, n);
    s.append(unit);
    proof {
        let p = decimal(n as nat) + unit@;
        assert(parts@.push(p).drop_last() =~= parts@);
        if parts@.len() == 0 {
            assert(s@ =~= p);
        } else {
            assert(s@ =~= joined(parts@) + " "@ + p);
        }
    }
}

/// Formats an elapsed time of `secs` seconds as `"1d 2h 3m ago"`, leaving out
/// zero components, or as `"just now"` under a minute.
pub fn format_duration(secs: u64) -> (r: String)
    ensures
        r@ == duration_text(secs as nat),
{
    let days = secs / 86400;
    let hours = (secs % 86400) / 3600;
    let minutes = (secs % 3600) / 60;
    let mut s = String::new();
    let ghost mut parts: Seq<Seq<char>> = Seq::empty();
    if days > 0 {
        push_part(&mut s, Ghost(parts), true, days, "d");
        proof { parts = parts.push(decimal(days as nat) + "d"@); }
    }
    if hours > 0 {
        push_part(&mut s, Ghost(parts), days == 0, hours, "h");
        proof { parts = parts.push(decimal(hours as nat) + "h"@); }
    }
    if minutes > 0 {
        push_part(&mut s, Ghost(parts), days == 0 && hours == 0, minutes, "m");
        proof { parts = parts.push(decimal(minutes as nat) + "m"@); }
    }
    assert(parts =~= duration_parts(secs as nat));
    if days == 0 && hours == 0 && minutes == 0 {
        String::from_str("just now")
    } else {
        s.append(" ago");
        s
    }
}

/// The names, as character sequences, of a list of strings.
pub open spec fn names(v: Seq<String>) -> Seq<Seq<char>> {
    v.map_values(|s: String| s@)
}

/// The row text for a folder: its name alone, or with its full path in
/// parentheses when the name is ambiguous.
pub open spec fn base_text(folder: Seq<char>, dir: Seq<char>, duplicate: bool) -> Seq<char> {
    if duplicate {
        "       > "@ + folder + " ("@ + dir + ")"@
    } else {
        "       > "@ + folder
    }
}

/// Whether `name` is one of `v`.
pub fn contains_name(v: &Vec<String>, name: &str) -> (r: bool)
    ensures
        r == names(v@).contains(name@),
{
    let mut i: usize = 0;
    while i < v.len()
        invariant
            i <= v@.len(),
            forall|k: int| 0 <= k < i ==> v@[k]@ != name@,
        decreases v@.len() - i,
    {
        if same_text(v[i].as_str(), name) {
            assert(names(v@)[i as int] == name@);
            return true;
        }
        i = i + 1;
    }
    proof {
        if names(v@).contains(name@) {
            let k = choose|k: int| 0 <= k < names(v@).len() && names(v@)[k] == name@;
            assert(v@[k]@ == name@);
        }
    }
    false
}

/// Builds the leading part of a row: `"       > <folder>"`, followed by
/// `" (<dir>)"` when `folder` is among `duplicates`.
pub fn format_base_text(folder_name: &str, dir: &str, duplicates: &Vec<String>) -> (r: String)
    ensures
        r@ == base_text(folder_name@, dir@, names(duplicates@).contains(folder_name@)),
{
    let mut s = String::from_str("       > ");
    s.append(folder_name);
    if contains_name(duplicates, folder_name) {
        s.append(" (");
        s.append(dir);
        s.append(")");
    }
    s
}

} // verus!
