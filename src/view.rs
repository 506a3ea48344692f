use vstd::prelude::*;
use crate::sessions::{exited_lookup, find_exited, find_live, live_lookup, ExitedSession, LiveSession};
use crate::text::{append_decimal, decimal, same_text};
use crate::utils::{base_text, duration_text, folder_name, format_base_text, format_duration, get_folder_name, names};

verus! {

/// Rows of the pane kept for the header and footer around the list.
pub const CHROME_ROWS: usize = 4;

/// Which slice of a list is shown, and how many entries follow it unseen.
pub struct Viewport {
    pub from: usize,
    pub count: usize,
    pub more: usize,
}

pub open spec fn sat_sub(a: int, b: int) -> int {
    if a > b {
        a - b
    } else {
        0
    }
}

pub open spec fn min(a: int, b: int) -> int {
    if a < b {
        a
    } else {
        b
    }
}

/// Rows left for list entries in a pane of `rows` rows.
pub open spec fn display_rows(rows: int) -> int {
    sat_sub(rows, CHROME_ROWS as int)
}

/// First shown index: the cursor minus half the visible height, but never
/// so far down that less than a full page would show.
pub open spec fn window_start(rows: int, cursor: int, len: int) -> int {
    let m = display_rows(rows);
    min(sat_sub(cursor, sat_sub(m, 1) / 2), sat_sub(len, m))
}

pub open spec fn window_count(rows: int, cursor: int, len: int) -> int {
    min(display_rows(rows), sat_sub(len, window_start(rows, cursor, len)))
}

/// Entries below the window, or 0 when the footer is not shown.
pub open spec fn window_more(rows: int, cursor: int, len: int) -> int {
    let rest = sat_sub(len, window_start(rows, cursor, len) + window_count(rows, cursor, len));
    if rest > 0 && len > display_rows(rows) {
        rest
    } else {
        0
    }
}

/// Chooses the visible slice of a list of `len` entries in a pane of `rows`
/// rows, centring the cursor where the list allows it.
pub fn viewport(rows: usize, cursor: usize, len: usize) -> (r: Viewport)
    ensures
        r.from == window_start(rows as int, cursor as int, len as int),
        r.count == window_count(rows as int, cursor as int, len as int),
        r.more == window_more(rows as int, cursor as int, len as int),
        r.from + r.count <= len,
        r.count <= display_rows(rows as int),
        r.from <= cursor,
        len >= display_rows(rows as int) ==> r.count == display_rows(rows as int),
        len <= display_rows(rows as int) ==> r.from == 0 && r.count == len && r.more == 0,
        r.more > 0 ==> r.from + r.count + r.more == len,
        cursor < len && display_rows(rows as int) > 0 ==> r.from <= cursor < r.from + r.count,
        sat_sub(display_rows(rows as int), 1) / 2 <= cursor && cursor - sat_sub(
            display_rows(rows as int),
            1,
        ) / 2 <= len - display_rows(rows as int) ==> r.from == cursor - sat_sub(
            display_rows(rows as int),
            1,
        ) / 2,
{
    let max_display_rows = rows.saturating_sub(CHROME_ROWS);
    let half = max_display_rows.saturating_sub(1) / 2;
    let a = cursor.saturating_sub(half);
    let b = len.saturating_sub(max_display_rows);
    let from = if a < b {
        a
    } else {
        b
    };
    let total_remaining = len - from;
    let count = if max_display_rows < total_remaining {
        max_display_rows
    } else {
        total_remaining
    };
    let remaining = len - (from + count);
    let more = if remaining > 0 && len > max_display_rows {
        remaining
    } else {
        0
    };
    Viewport { from, count, more }
}

/// A highlighted span of a line, in characters, with its color level.
pub struct Highlight {
    pub color: usize,
    pub start: usize,
    pub end: usize,
}

/// One output line: its text, the span to color, and whether the whole
/// line is the selected one.
pub struct Line {
    pub text: String,
    pub highlight: Option<Highlight>,
    pub selected: bool,
}

/// The session badge appended to a row for folder name `name`.
pub open spec fn status_suffix(
    name: Seq<char>,
    live: Seq<LiveSession>,
    exited: Seq<ExitedSession>,
) -> Seq<char> {
    match live_lookup(live, name) {
        Some((current, users)) => if current {
            " [CURRENT - "@ + decimal(users as nat) + " users]"@
        } else if users > 0 {
            " ["@ + decimal(users as nat) + " users]"@
        } else {
            " [CREATED]"@
        },
        None => match exited_lookup(exited, name) {
            Some(secs) => " [EXITED "@ + duration_text(secs as nat) + "]"@,
            None => " [NOT CREATED]"@,
        },
    }
}

/// The colored part of the badge, for a row whose leading text has `base`
/// characters: the user count, or the word CREATED or EXITED.
pub open spec fn status_span(
    base: int,
    name: Seq<char>,
    live: Seq<LiveSession>,
    exited: Seq<ExitedSession>,
) -> Option<(int, int, int)> {
    match live_lookup(live, name) {
        Some((current, users)) => if current {
            Some((3, base + 12, base + 12 + decimal(users as nat).len()))
        } else if users > 0 {
            Some((3, base + 2, base + 2 + decimal(users as nat).len()))
        } else {
            Some((1, base + 2, base + 9))
        },
        None => match exited_lookup(exited, name) {
            Some(secs) => Some((3, base + 2, base + 8)),
            None => None,
        },
    }
}

/// Whether `line` is the row for path `dir`.
pub open spec fn row_line(
    line: Line,
    dir: Seq<char>,
    duplicate: bool,
    live: Seq<LiveSession>,
    exited: Seq<ExitedSession>,
    selected: bool,
) -> bool {
    let base = base_text(folder_name(dir), dir, duplicate);
    &&& line.text@ == base + status_suffix(folder_name(dir), live, exited)
    &&& line.selected == selected
    &&& match status_span(base.len() as int, folder_name(dir), live, exited) {
        Some((c, s, e)) => line.highlight matches Some(h) && h.color == c && h.start == s
            && h.end == e,
        None => line.highlight is None,
    }
}

/// Builds the row for path `dir`: its base text, session badge, and the
/// span of the badge to color.
pub fn compose_line(
    dir: &str,
    duplicates: &Vec<String>,
    live: &Vec<LiveSession>,
    exited: &Vec<ExitedSession>,
    selected: bool,
) -> (r: Line)
    ensures
        row_line(
            r,
            dir@,
            names(duplicates@).contains(folder_name(dir@)),
            live@,
            exited@,
            selected,
        ),
{
    let name = get_folder_name(dir);
    let base = format_base_text(name, dir, duplicates);
    let base_len = base.as_str().unicode_len();
    let mut text = base.clone();
    proof {
        reveal_strlit(" [CURRENT - ");
        reveal_strlit(" [");
        reveal_strlit("CREATED");
        reveal_strlit(" [CREATED]");
        reveal_strlit(" [EXITED ");
    }
    let highlight = match find_live(live, name) {
        Some((current, users)) => {
            if current {
                text.append(" [CURRENT - ");
                append_decimal(&mut text, users as u64);
                let mid = text.as_str().unicode_len();
                text.append(" users]");
                assert(text@ =~= base@ + (" [CURRENT - "@ + decimal(users as nat) + " users]"@));
                Some(Highlight { color: 3, start: base_len + 12, end: mid })
            } else if users > 0 {
                text.append(" [");
                append_decimal(&mut text, users as u64);
                let mid = text.as_str().unicode_len();
                text.append(" users]");
                assert(text@ =~= base@ + (" ["@ + decimal(users as nat) + " users]"@));
                Some(Highlight { color: 3, start: base_len + 2, end: mid })
            } else {
                text.append(" [CREATED]");
                let total = text.as_str().unicode_len();
                Some(Highlight { color: 1, start: base_len + 2, end: total - 1 })
            }
        },
        None => match find_exited(exited, name) {
            Some(secs) => {
                text.append(" [EXITED ");
                let mid = text.as_str().unicode_len();
                let age = format_duration(secs);
                text.append(age.as_str());
                text.append("]");
                assert(text@ =~= base@ + (" [EXITED "@ + duration_text(secs as nat) + "]"@));
                Some(Highlight { color: 3, start: base_len + 2, end: mid - 1 })
            },
            None => {
                text.append(" [NOT CREATED]");
                None
            },
        },
    };
    Line { text, highlight, selected }
}

/// How many times `x` occurs in `s`.
pub open spec fn count_of(s: Seq<Seq<char>>, x: Seq<char>) -> nat
    decreases s.len(),
{
    if s.len() == 0 {
        0
    } else {
        count_of(s.drop_last(), x) + (if s.last() == x {
            1nat
        } else {
            0nat
        })
    }
}

/// The leaf folder names of a list of paths.
pub open spec fn leaves(s: Seq<Seq<char>>) -> Seq<Seq<char>> {
    s.map_values(|d: Seq<char>| folder_name(d))
}

/// Whether folder name `name` belongs to more than one path of `s`.
pub open spec fn is_duplicate(s: Seq<Seq<char>>, name: Seq<char>) -> bool {
    count_of(leaves(s), name) >= 2
}

proof fn lemma_count_contains(s: Seq<Seq<char>>, x: Seq<char>)
    requires
        count_of(s, x) > 0,
    ensures
        s.contains(x),
    decreases s.len(),
{
    if s.last() != x {
        lemma_count_contains(s.drop_last(), x);
        let k = choose|k: int| 0 <= k < s.drop_last().len() && s.drop_last()[k] == x;
        assert(s[k] == x);
    } else {
        assert(s[s.len() - 1] == x);
    }
}

/// The folder names that more than one path of `dirs` shares.
pub fn duplicate_names(dirs: &Vec<String>) -> (r: Vec<String>)
    ensures
        forall|x: Seq<char>| names(r@).contains(x) <==> is_duplicate(names(dirs@), x),
{
    let ghost s = names(dirs@);
    let n = dirs.len();
    let mut lv: Vec<String> = Vec::new();
    let mut i: usize = 0;
    while i < n
        invariant
            n == dirs@.len(),
            s == names(dirs@),
            i <= n,
            names(lv@) == leaves(s).take(i as int),
        decreases n - i,
    {
        let leaf = String::from_str(get_folder_name(dirs[i].as_str()));
        let ghost before = names(lv@);
        assert(leaf@ == leaves(s)[i as int]);
        lv.push(leaf);
        assert(names(lv@) =~= before.push(leaves(s)[i as int]));
        assert(leaves(s).take(i + 1) =~= leaves(s).take(i as int).push(leaves(s)[i as int]));
        i = i + 1;
    }
    let ghost l = leaves(s);
    assert(names(lv@) =~= l);
    let mut r: Vec<String> = Vec::new();
    let mut i: usize = 0;
    while i < n
        invariant
            n == dirs@.len(),
            l.len() == n,
            names(lv@) == l,
            l == leaves(s),
            i <= n,
            forall|x: Seq<char>|
                names(r@).contains(x) <==> (count_of(l, x) >= 2 && l.take(i as int).contains(x)),
        decreases n - i,
    {
        let mut c: usize = 0;
        let mut j: usize = 0;
        while j < n
            invariant
                n == l.len(),
                names(lv@) == l,
                i < n,
                j <= n,
                c as nat == if count_of(l.take(j as int), l[i as int]) >= 2 {
                    2
                } else {
                    count_of(l.take(j as int), l[i as int])
                },
            decreases n - j,
        {
            assert(l.take(j + 1).drop_last() =~= l.take(j as int));
            if c < 2 && same_text(lv[j].as_str(), lv[i].as_str()) {
                c = c + 1;
            }
            j = j + 1;
        }
        assert(l.take(n as int) =~= l);
        let ghost y = l[i as int];
        let ghost before = names(r@);
        if c >= 2 {
            r.push(lv[i].clone());
            assert(names(r@) =~= before.push(y));
        }
        proof {
            assert forall|x: Seq<char>|
                names(r@).contains(x) <==> (count_of(l, x) >= 2 && l.take(i + 1).contains(
                    x,
                )) by {
                if l.take(i + 1).contains(x) {
                    let k = choose|k: int| 0 <= k < i + 1 && #[trigger] l.take(i + 1)[k] == x;
                    if k < i {
                        assert(l.take(i as int)[k] == x);
                    }
                }
                if l.take(i as int).contains(x) {
                    let k = choose|k: int| 0 <= k < i && #[trigger] l.take(i as int)[k] == x;
                    assert(l.take(i + 1)[k] == x);
                }
                assert(l.take(i + 1)[i as int] == y);
                if names(r@).contains(x) && c >= 2 {
                    let k = choose|k: int| 0 <= k < names(r@).len() && #[trigger] names(r@)[k] == x;
                    if k < before.len() {
                        assert(before[k] == x);
                    }
                }
                if before.contains(x) && c >= 2 {
                    let k = choose|k: int| 0 <= k < before.len() && #[trigger] before[k] == x;
                    assert(names(r@)[k] == x);
                }
                if x == y && c >= 2 {
                    assert(names(r@)[before.len() as int] == x);
                }
            }
        }
        i = i + 1;
    }
    proof {
        assert(l.take(n as int) =~= l);
        assert forall|x: Seq<char>| names(r@).contains(x) <==> is_duplicate(s, x) by {
            if count_of(l, x) >= 2 {
                lemma_count_contains(l, x);
            }
        }
    }
    r
}

/// Whether `line` is the footer counting `more` entries below the window.
pub open spec fn footer_line(line: Line, more: int) -> bool {
    &&& line.text@ == "       +"@ + decimal(more as nat) + " more"@
    &&& !line.selected
    &&& line.highlight matches Some(h) && h.color == 2 && h.start == 0 && h.end == line.text@.len()
}

/// The footer line `"       +<more> more"`, colored whole.
pub fn footer(more: usize) -> (r: Line)
    ensures
        footer_line(r, more as int),
{
    let mut text = String::from_str("       +");
    append_decimal(&mut text, more as u64);
    text.append(" more");
    let len = text.as_str().unicode_len();
    Line { text, highlight: Some(Highlight { color: 2, start: 0, end: len }), selected: false }
}

} // verus!
