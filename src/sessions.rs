use vstd::prelude::*;
use crate::filter::strictly_descending;
use crate::text::{lex_lt, same_text};
use crate::utils::{folder_name, get_folder_name, names};

verus! {

/// A running session, keyed by the leaf folder name it was opened for.
pub struct LiveSession {
    pub name: String,
    pub is_current: bool,
    pub users: usize,
}

/// An exited session that can be brought back, with the seconds since it ended.
pub struct ExitedSession {
    pub name: String,
    pub secs: u64,
}

/// The first live session named `name`: its current-tab flag and user count.
pub open spec fn live_lookup(t: Seq<LiveSession>, name: Seq<char>) -> Option<(bool, usize)>
    decreases t.len(),
{
    if t.len() == 0 {
        None
    } else if t[0].name@ == name {
        Some((t[0].is_current, t[0].users))
    } else {
        live_lookup(t.drop_first(), name)
    }
}

/// The age in seconds of the first exited session named `name`.
pub open spec fn exited_lookup(t: Seq<ExitedSession>, name: Seq<char>) -> Option<u64>
    decreases t.len(),
{
    if t.len() == 0 {
        None
    } else if t[0].name@ == name {
        Some(t[0].secs)
    } else {
        exited_lookup(t.drop_first(), name)
    }
}

/// Looks up a live session by name.
pub fn find_live(t: &Vec<LiveSession>, name: &str) -> (r: Option<(bool, usize)>)
    ensures
        r == live_lookup(t@, name@),
{
    let mut i: usize = 0;
    assert(t@.skip(0) =~= t@);
    while i < t.len()
        invariant
            i <= t@.len(),
            live_lookup(t@, name@) == live_lookup(t@.skip(i as int), name@),
        decreases t@.len() - i,
    {
        assert(t@.skip(i as int)[0] == t@[i as int]);
        assert(t@.skip(i as int).drop_first() =~= t@.skip(i + 1));
        if same_text(t[i].name.as_str(), name) {
            return Some((t[i].is_current, t[i].users));
        }
        i = i + 1;
    }
    None
}

/// Looks up an exited session by name.
pub fn find_exited(t: &Vec<ExitedSession>, name: &str) -> (r: Option<u64>)
    ensures
        r == exited_lookup(t@, name@),
{
    let mut i: usize = 0;
    assert(t@.skip(0) =~= t@);
    while i < t.len()
        invariant
            i <= t@.len(),
            exited_lookup(t@, name@) == exited_lookup(t@.skip(i as int), name@),
        decreases t@.len() - i,
    {
        assert(t@.skip(i as int)[0] == t@[i as int]);
        assert(t@.skip(i as int).drop_first() =~= t@.skip(i + 1));
        if same_text(t[i].name.as_str(), name) {
            return Some(t[i].secs);
        }
        i = i + 1;
    }
    None
}

/// Sort priority of a path: 0 with a live session for its folder name,
/// 1 with only an exited one, 2 with neither.
pub open spec fn rank(d: Seq<char>, live: Seq<LiveSession>, exited: Seq<ExitedSession>) -> nat {
    if live_lookup(live, folder_name(d)) is Some {
        0
    } else if exited_lookup(exited, folder_name(d)) is Some {
        1
    } else {
        2
    }
}

/// The paths of `s` of priority `k`, last first.
pub open spec fn picked(
    s: Seq<Seq<char>>,
    k: nat,
    live: Seq<LiveSession>,
    exited: Seq<ExitedSession>,
) -> Seq<Seq<char>>
    decreases s.len(),
{
    if s.len() == 0 {
        Seq::empty()
    } else {
        picked(s.drop_first(), k, live, exited) + (if rank(s[0], live, exited) == k {
            seq![s[0]]
        } else {
            Seq::empty()
        })
    }
}

/// The display order of a filtered list kept in descending order: live
/// sessions first, then exited ones, then the rest, each group ascending.
pub open spec fn session_order(
    s: Seq<Seq<char>>,
    live: Seq<LiveSession>,
    exited: Seq<ExitedSession>,
) -> Seq<Seq<char>> {
    picked(s, 0, live, exited) + picked(s, 1, live, exited) + picked(s, 2, live, exited)
}

/// Composite order: lower priority first, then ascending path.
pub open spec fn session_before(
    a: Seq<char>,
    b: Seq<char>,
    live: Seq<LiveSession>,
    exited: Seq<ExitedSession>,
) -> bool {
    rank(a, live, exited) < rank(b, live, exited) || (rank(a, live, exited) == rank(
        b,
        live,
        exited,
    ) && lex_lt(a, b))
}

/// The priority of one path.
pub fn rank_of(d: &str, live: &Vec<LiveSession>, exited: &Vec<ExitedSession>) -> (r: u8)
    ensures
        r as nat == rank(d@, live@, exited@),
{
    let name = get_folder_name(d);
    if find_live(live, name).is_some() {
        0
    } else if find_exited(exited, name).is_some() {
        1
    } else {
        2
    }
}

/// Re-orders a filtered list (kept in descending order) for display: live
/// sessions first, then exited ones, then the rest, each group ascending.
pub fn sort_by_session(
    dirs: &Vec<String>,
    live: &Vec<LiveSession>,
    exited: &Vec<ExitedSession>,
) -> (r: Vec<String>)
    ensures
        names(r@) == session_order(names(dirs@), live@, exited@),
{
    let n = dirs.len();
    let mut ranks: Vec<u8> = Vec::new();
    let mut i: usize = 0;
    while i < n
        invariant
            n == dirs@.len(),
            i <= n,
            ranks@.len() == i,
            forall|k: int| 0 <= k < i ==> ranks@[k] as nat == rank(dirs@[k]@, live@, exited@),
        decreases n - i,
    {
        let k = rank_of(dirs[i].as_str(), live, exited);
        ranks.push(k);
        i = i + 1;
    }
    let ghost s = names(dirs@);
    let mut r: Vec<String> = Vec::new();
    let mut level: u8 = 0;
    while level < 3
        invariant
            n == dirs@.len(),
            s == names(dirs@),
            ranks@.len() == n,
            forall|k: int| 0 <= k < n ==> ranks@[k] as nat == rank(dirs@[k]@, live@, exited@),
            level <= 3,
            level == 0 ==> names(r@) == Seq::<Seq<char>>::empty(),
            level == 1 ==> names(r@) == picked(s, 0, live@, exited@),
            level == 2 ==> names(r@) == picked(s, 0, live@, exited@) + picked(s, 1, live@, exited@),
            level == 3 ==> names(r@) == session_order(s, live@, exited@),
        decreases 3 - level,
    {
        let ghost base = names(r@);
        let mut j: usize = n;
        assert(s.subrange(n as int, n as int) =~= Seq::<Seq<char>>::empty());
        while j > 0
            invariant
                n == dirs@.len(),
                s == names(dirs@),
                ranks@.len() == n,
                forall|k: int| 0 <= k < n ==> ranks@[k] as nat == rank(dirs@[k]@, live@, exited@),
                j <= n,
                level < 3,
                names(r@) == base + picked(s.subrange(j as int, n as int), level as nat, live@, exited@),
            decreases j,
        {
            let ghost before = names(r@);
            let ghost t = s.subrange(j - 1, n as int);
            assert(t.drop_first() =~= s.subrange(j as int, n as int));
            assert(t[0] == dirs@[j - 1]@);
            if ranks[j - 1] == level {
                r.push(dirs[j - 1].clone());
                assert(names(r@) =~= before + seq![dirs@[j - 1]@]);
            }
            j = j - 1;
        }
        assert(s.subrange(0, n as int) =~= s);
        proof {
            if level == 0 {
                assert(names(r@) =~= picked(s, 0, live@, exited@));
            }
        }
        level = level + 1;
    }
    r
}

/// The paths of priority `k`, taken from a list in strictly descending
/// order, are all of that priority, all from the list, and ascending.
pub proof fn lemma_picked_ascending(
    s: Seq<Seq<char>>,
    k: nat,
    live: Seq<LiveSession>,
    exited: Seq<ExitedSession>,
)
    requires
        strictly_descending(s),
    ensures
        ({
            let p = picked(s, k, live, exited);
            &&& forall|i: int| 0 <= i < p.len() ==> rank(#[trigger] p[i], live, exited) == k
            &&& forall|i: int| 0 <= i < p.len() ==> s.contains(#[trigger] p[i])
            &&& forall|i: int, j: int| 0 <= i < j < p.len() ==> lex_lt(#[trigger] p[i], #[trigger] p[j])
        }),
    decreases s.len(),
{
    if s.len() > 0 {
        let t = s.drop_first();
        assert(strictly_descending(t)) by {
            assert forall|i: int, j: int| 0 <= i < j < t.len() implies lex_lt(#[trigger] t[j], #[trigger] t[i]) by {
                assert(t[j] == s[j + 1] && t[i] == s[i + 1]);
            }
        }
        lemma_picked_ascending(t, k, live, exited);
        let q = picked(t, k, live, exited);
        let p = picked(s, k, live, exited);
        assert forall|i: int| 0 <= i < p.len() implies rank(#[trigger] p[i], live, exited) == k && s.contains(p[i]) by {
            if i < q.len() {
                assert(p[i] == q[i]);
                let m = choose|m: int| 0 <= m < t.len() && t[m] == q[i];
                assert(s[m + 1] == p[i]);
            } else {
                assert(p[i] == s[0]);
            }
        }
        assert forall|i: int, j: int| 0 <= i < j < p.len() implies lex_lt(#[trigger] p[i], #[trigger] p[j]) by {
            assert(p[i] == q[i]);
            if j < q.len() {
                assert(p[j] == q[j]);
            } else {
                let m = choose|m: int| 0 <= m < t.len() && t[m] == q[i];
                assert(s[m + 1] == q[i]);
                assert(p[j] == s[0]);
            }
        }
    }
}

proof fn lemma_picked_len(s: Seq<Seq<char>>, live: Seq<LiveSession>, exited: Seq<ExitedSession>)
    ensures
        picked(s, 0, live, exited).len() + picked(s, 1, live, exited).len() + picked(
            s,
            2,
            live,
            exited,
        ).len() == s.len(),
    decreases s.len(),
{
    if s.len() > 0 {
        lemma_picked_len(s.drop_first(), live, exited);
    }
}

/// The display order of a filtered list (kept strictly descending) holds
/// every entry once and is sorted: lower priority first, and within one
/// priority ascending by path.
pub proof fn lemma_session_order_sorted(
    s: Seq<Seq<char>>,
    live: Seq<LiveSession>,
    exited: Seq<ExitedSession>,
)
    requires
        strictly_descending(s),
    ensures
        session_order(s, live, exited).len() == s.len(),
        forall|i: int|
            0 <= i < s.len() ==> s.contains(#[trigger] session_order(s, live, exited)[i]),
        forall|i: int, j: int|
            0 <= i < j < s.len() ==> session_before(
                #[trigger] session_order(s, live, exited)[i],
                #[trigger] session_order(s, live, exited)[j],
                live,
                exited,
            ),
{
    lemma_picked_len(s, live, exited);
    lemma_picked_ascending(s, 0, live, exited);
    lemma_picked_ascending(s, 1, live, exited);
    lemma_picked_ascending(s, 2, live, exited);
    let p0 = picked(s, 0, live, exited);
    let p1 = picked(s, 1, live, exited);
    let p2 = picked(s, 2, live, exited);
    let r = session_order(s, live, exited);
    let a = p0.len() as int;
    let b = a + p1.len();
    assert forall|i: int| 0 <= i < r.len() implies (i < a ==> r[i] == p0[i]) && (a <= i < b ==> r[i]
        == p1[i - a]) && (b <= i ==> r[i] == p2[i - b]) by {}
    assert forall|i: int| 0 <= i < s.len() implies s.contains(#[trigger] r[i]) by {
        if i < a {
            assert(r[i] == p0[i]);
        } else if i < b {
            assert(r[i] == p1[i - a]);
        } else {
            assert(r[i] == p2[i - b]);
        }
    }
    assert forall|i: int, j: int| 0 <= i < j < s.len() implies session_before(
        #[trigger] r[i],
        #[trigger] r[j],
        live,
        exited,
    ) by {
        if j < a {
            assert(lex_lt(p0[i], p0[j]));
        } else if i < a {
            assert(rank(p0[i], live, exited) == 0);
        } else if j < b {
            assert(lex_lt(p1[i - a], p1[j - a]));
        } else if i < b {
            assert(rank(p1[i - a], live, exited) == 1);
            assert(rank(p2[j - b], live, exited) == 2);
        } else {
            assert(lex_lt(p2[i - b], p2[j - b]));
        }
    }
}

} // verus!
