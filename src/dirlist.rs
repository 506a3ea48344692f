use vstd::prelude::*;
use crate::filter::{filter_matching, fuzzy_filter, is_subsequence, lemma_filter_idempotent, lemma_filter_subsequence, lemma_filter_keeps_descending, strictly_descending};
use crate::sessions::{
    lemma_session_order_sorted, session_before, session_order, sort_by_session, ExitedSession,
    LiveSession,
};
use crate::text::{compare, lemma_lex_irreflexive, lemma_lex_total, lemma_lex_transitive, lex_lt};
use crate::utils::{folder_name, names};
use crate::view::{
    compose_line, duplicate_names, footer, footer_line, is_duplicate, row_line, viewport, window_count,
    window_more, window_start, Line,
};

verus! {

/// The known directories, the search term, the paths it matches, and the
/// selected row.
#[derive(Debug)]
pub struct DirList {
    dirs: Vec<String>,
    cursor: usize,
    search_term: String,
    filtered_dirs: Vec<String>,
    select_last: bool,
}

/// Inserts `x` into a list kept in strictly descending order, unless it is
/// already there.
fn insert_sorted(v: &mut Vec<String>, x: &String)
    requires
        strictly_descending(names(old(v)@)),
    ensures
        strictly_descending(names(final(v)@)),
        forall|z: Seq<char>| names(final(v)@).contains(z) <==> (names(old(v)@).contains(z) || z == x@),
{
    let ghost s = names(v@);
    let mut i: usize = 0;
    while i < v.len() && compare(x.as_str(), v[i].as_str()) < 0
        invariant
            s == names(v@),
            i <= v@.len(),
            forall|k: int| 0 <= k < i ==> lex_lt(x@, #[trigger] s[k]),
        decreases v@.len() - i,
    {
        i = i + 1;
    }
    if i < v.len() && compare(x.as_str(), v[i].as_str()) == 0 {
        assert(s[i as int] == x@);
        return;
    }
    proof {
        if i < s.len() {
            lemma_lex_total(x@, s[i as int]);
        }
    }
    v.insert(i, x.clone());
    let ghost t = names(v@);
    assert(t =~= s.insert(i as int, x@));
    assert forall|p: int, q: int| 0 <= p < q < t.len() implies lex_lt(#[trigger] t[q], #[trigger] t[p]) by {
        if p < i && q == i {
        } else if p < i && q > i {
            assert(t[q] == s[q - 1]);
        } else if p == i && q > i {
            assert(t[q] == s[q - 1]);
            if q - 1 > i {
                lemma_lex_transitive(s[q - 1], s[i as int], x@);
            }
        } else if p > i {
            assert(t[q] == s[q - 1]);
            assert(t[p] == s[p - 1]);
        }
    }
    assert forall|z: Seq<char>| t.contains(z) <==> (s.contains(z) || z == x@) by {
        if t.contains(z) {
            let k = choose|k: int| 0 <= k < t.len() && t[k] == z;
            if k < i {
                assert(s[k] == z);
            } else if k > i {
                assert(s[k - 1] == z);
            }
        }
        if s.contains(z) {
            let k = choose|k: int| 0 <= k < s.len() && s[k] == z;
            if k < i {
                assert(t[k] == z);
            } else {
                assert(t[k + 1] == z);
            }
        }
        if z == x@ {
            assert(t[i as int] == z);
        }
    }
}

impl DirList {
    /// The known paths, in descending order.
    pub closed spec fn paths(&self) -> Seq<Seq<char>> {
        names(self.dirs@)
    }

    pub closed spec fn term(&self) -> Seq<char> {
        self.search_term@
    }

    /// The paths that the search term matches, in descending order.
    pub closed spec fn filtered(&self) -> Seq<Seq<char>> {
        names(self.filtered_dirs@)
    }

    pub closed spec fn cursor(&self) -> int {
        self.cursor as int
    }

    /// Whether a fresh filter selects the last row rather than the first.
    pub closed spec fn selects_last(&self) -> bool {
        self.select_last
    }

    /// Where the cursor goes after the list is filtered again.
    pub open spec fn default_cursor(&self) -> int {
        if self.selects_last() && self.filtered().len() > 0 {
            self.filtered().len() - 1
        } else {
            0
        }
    }

    /// Paths sorted strictly descending (so never twice), the filtered list
    /// in step with them and the term, and the cursor on a row.
    pub open spec fn wf(&self) -> bool {
        &&& strictly_descending(self.paths())
        &&& self.filtered() == filter_matching(self.paths(), self.term())
        &&& 0 <= self.cursor()
        &&& (self.cursor() == 0 || self.cursor() < self.filtered().len())
    }

    /// An empty list with an empty search term.
    pub fn new() -> (r: DirList)
        ensures
            r.wf(),
            r.paths().len() == 0,
            r.term().len() == 0,
            r.filtered().len() == 0,
            r.cursor() == 0,
            !r.selects_last(),
    {
        let r = DirList {
            dirs: Vec::new(),
            cursor: 0,
            search_term: String::new(),
            filtered_dirs: Vec::new(),
            select_last: false,
        };
        assert(r.paths() =~= Seq::<Seq<char>>::empty());
        assert(r.filtered() =~= Seq::<Seq<char>>::empty());
        r
    }

    /// Forgets every path and moves the cursor to the top; the term stays.
    pub fn reset(&mut self)
        ensures
            final(self).wf(),
            final(self).paths().len() == 0,
            final(self).filtered().len() == 0,
            final(self).term() == old(self).term(),
            final(self).selects_last() == old(self).selects_last(),
            final(self).cursor() == 0,
    {
        self.dirs.clear();
        self.cursor = 0;
        self.filtered_dirs.clear();
        assert(self.paths() =~= Seq::<Seq<char>>::empty());
        assert(self.filtered() =~= Seq::<Seq<char>>::empty());
    }

    /// Adds the paths not yet known, keeps them sorted in descending order,
    /// filters again and moves the cursor to the top.
    pub fn update_dirs(&mut self, dirs: Vec<String>)
        requires
            old(self).wf(),
        ensures
            final(self).wf(),
            forall|z: Seq<char>|
                final(self).paths().contains(z) <==> (old(self).paths().contains(z) || names(
                    dirs@,
                ).contains(z)),
            final(self).term() == old(self).term(),
            final(self).selects_last() == old(self).selects_last(),
            final(self).filtered() == filter_matching(final(self).paths(), final(self).term()),
            final(self).cursor() == final(self).default_cursor(),
    {
        let mut i: usize = 0;
        while i < dirs.len()
            invariant
                strictly_descending(self.paths()),
                self.term() == old(self).term(),
                self.selects_last() == old(self).selects_last(),
                i <= dirs@.len(),
                forall|z: Seq<char>|
                    self.paths().contains(z) <==> (old(self).paths().contains(z) || names(
                        dirs@,
                    ).take(i as int).contains(z)),
            decreases dirs@.len() - i,
        {
            let ghost before = self.paths();
            insert_sorted(&mut self.dirs, &dirs[i]);
            proof {
                let n = names(dirs@);
                assert(n.take(i + 1) =~= n.take(i as int).push(dirs@[i as int]@));
                assert forall|z: Seq<char>|
                    n.take(i + 1).contains(z) <==> (n.take(i as int).contains(z) || z
                        == dirs@[i as int]@) by {
                    if n.take(i + 1).contains(z) {
                        let k = choose|k: int| 0 <= k < i + 1 && #[trigger] n.take(i + 1)[k] == z;
                        if k < i {
                            assert(n.take(i as int)[k] == z);
                        }
                    }
                    if n.take(i as int).contains(z) {
                        let k = choose|k: int| 0 <= k < i && #[trigger] n.take(i as int)[k] == z;
                        assert(n.take(i + 1)[k] == z);
                    }
                    if z == dirs@[i as int]@ {
                        assert(n.take(i + 1)[i as int] == z);
                    }
                }
            }
            i = i + 1;
        }
        assert(names(dirs@).take(i as int) =~= names(dirs@));
        self.filter();
    }

    /// Moves the selection one row up, staying on the top row.
    pub fn handle_up(&mut self)
        requires
            old(self).wf(),
        ensures
            final(self).wf(),
            final(self).paths() == old(self).paths(),
            final(self).term() == old(self).term(),
            final(self).filtered() == old(self).filtered(),
            final(self).selects_last() == old(self).selects_last(),
            final(self).cursor() == if old(self).cursor() > 0 {
                old(self).cursor() - 1
            } else {
                0
            },
    {
        if self.cursor > 0 {
            self.cursor = self.cursor - 1;
        }
    }

    /// Moves the selection one row down, staying on the last row.
    pub fn handle_down(&mut self)
        requires
            old(self).wf(),
        ensures
            final(self).wf(),
            final(self).paths() == old(self).paths(),
            final(self).term() == old(self).term(),
            final(self).filtered() == old(self).filtered(),
            final(self).selects_last() == old(self).selects_last(),
            final(self).cursor() == if old(self).cursor() + 1 < old(self).filtered().len() {
                old(self).cursor() + 1
            } else {
                old(self).cursor()
            },
    {
        if self.cursor < self.filtered_dirs.len().saturating_sub(1) {
            self.cursor = self.cursor + 1;
        }
    }

    /// Replaces the search term and filters again.
    pub fn set_search_term(&mut self, search_term: &str)
        requires
            old(self).wf(),
        ensures
            final(self).wf(),
            final(self).paths() == old(self).paths(),
            final(self).term() == search_term@,
            final(self).selects_last() == old(self).selects_last(),
            final(self).filtered() == filter_matching(final(self).paths(), search_term@),
            final(self).cursor() == final(self).default_cursor(),
    {
        self.search_term = String::from_str(search_term);
        self.filter();
    }

    /// Recomputes the filtered paths from the known paths and the term, and
    /// moves the cursor to the top.
    pub fn filter(&mut self)
        requires
            strictly_descending(old(self).paths()),
        ensures
            final(self).wf(),
            final(self).paths() == old(self).paths(),
            final(self).term() == old(self).term(),
            final(self).filtered() == filter_matching(old(self).paths(), old(self).term()),
            final(self).selects_last() == old(self).selects_last(),
            final(self).cursor() == final(self).default_cursor(),
    {
        self.filtered_dirs = fuzzy_filter(&self.dirs, self.search_term.as_str());
        let n = self.filtered_dirs.len();
        self.cursor = if self.select_last && n > 0 {
            n - 1
        } else {
            0
        };
    }

    /// Chooses whether filtering selects the last row (`true`) or the first;
    /// filters again so that the choice applies at once.
    pub fn set_select_last(&mut self, select_last: bool)
        requires
            old(self).wf(),
        ensures
            final(self).wf(),
            final(self).paths() == old(self).paths(),
            final(self).term() == old(self).term(),
            final(self).filtered() == old(self).filtered(),
            final(self).selects_last() == select_last,
            final(self).cursor() == final(self).default_cursor(),
    {
        self.select_last = select_last;
        self.filter();
    }

    /// The filtered paths in display order: live sessions first, then exited
    /// ones, then the rest, each group in ascending order.
    pub fn get_sorted_dirs_with_sessions(
        &self,
        sessions: &Vec<LiveSession>,
        resurrectable_sessions: &Vec<ExitedSession>,
    ) -> (r: Vec<String>)
        ensures
            names(r@) == session_order(self.filtered(), sessions@, resurrectable_sessions@),
    {
        sort_by_session(&self.filtered_dirs, sessions, resurrectable_sessions)
    }

    /// The path on the selected row of the display order, if any.
    pub fn get_selected(
        &self,
        sessions: &Vec<LiveSession>,
        resurrectable_sessions: &Vec<ExitedSession>,
    ) -> (r: Option<String>)
        ensures
            ({
                let s = session_order(self.filtered(), sessions@, resurrectable_sessions@);
                match r {
                    Some(p) => 0 <= self.cursor() < s.len() && p@ == s[self.cursor()],
                    None => !(0 <= self.cursor() < s.len()),
                }
            }),
    {
        let sorted = self.get_sorted_dirs_with_sessions(sessions, resurrectable_sessions);
        if self.cursor < sorted.len() {
            assert(names(sorted@)[self.cursor as int] == sorted@[self.cursor as int]@);
            Some(sorted[self.cursor].clone())
        } else {
            None
        }
    }
}

impl DirList {
    /// The lines to show in a pane of `rows` rows: the window of the display
    /// order around the cursor, each row with its badge and highlight, and a
    /// footer counting the entries below the window when the list does not fit.
    pub fn render(
        &self,
        rows: usize,
        _cols: usize,
        sessions: &Vec<LiveSession>,
        resurrectable_sessions: &Vec<ExitedSession>,
    ) -> (r: Vec<Line>)
        ensures
            ({
                let s = session_order(self.filtered(), sessions@, resurrectable_sessions@);
                let from = window_start(rows as int, self.cursor(), s.len() as int);
                let count = window_count(rows as int, self.cursor(), s.len() as int);
                let more = window_more(rows as int, self.cursor(), s.len() as int);
                &&& r@.len() == count + (if more > 0 {
                    1int
                } else {
                    0int
                })
                &&& forall|k: int|
                    0 <= k < count ==> row_line(
                        #[trigger] r@[k],
                        s[from + k],
                        is_duplicate(s, folder_name(s[from + k])),
                        sessions@,
                        resurrectable_sessions@,
                        from + k == self.cursor(),
                    )
                &&& more > 0 ==> footer_line(r@[count], more)
            }),
    {
        let sorted = self.get_sorted_dirs_with_sessions(sessions, resurrectable_sessions);
        let ghost s = names(sorted@);
        let n = sorted.len();
        let vp = viewport(rows, self.cursor, n);
        let duplicates = duplicate_names(&sorted);
        let mut lines: Vec<Line> = Vec::new();
        let mut k: usize = 0;
        while k < vp.count
            invariant
                s == names(sorted@),
                n == sorted@.len(),
                vp.from + vp.count <= n,
                k <= vp.count,
                lines@.len() == k,
                forall|x: Seq<char>| names(duplicates@).contains(x) <==> is_duplicate(s, x),
                forall|m: int|
                    0 <= m < k ==> row_line(
                        #[trigger] lines@[m],
                        s[vp.from + m],
                        is_duplicate(s, folder_name(s[vp.from + m])),
                        sessions@,
                        resurrectable_sessions@,
                        vp.from + m == self.cursor,
                    ),
            decreases vp.count - k,
        {
            let i = vp.from + k;
            assert(s[i as int] == sorted@[i as int]@);
            let line = compose_line(
                sorted[i].as_str(),
                &duplicates,
                sessions,
                resurrectable_sessions,
                i == self.cursor,
            );
            lines.push(line);
            k = k + 1;
        }
        if vp.more > 0 {
            lines.push(footer(vp.more));
        }
        lines
    }
}

impl Default for DirList {
    fn default() -> (r: DirList)
        ensures
            r.wf(),
            r.paths().len() == 0,
            r.term().len() == 0,
            r.cursor() == 0,
            !r.selects_last(),
    {
        DirList::new()
    }
}

/// No path is known twice.
pub proof fn lemma_paths_unique(l: &DirList)
    requires
        l.wf(),
    ensures
        forall|i: int, j: int|
            0 <= i < j < l.paths().len() ==> #[trigger] l.paths()[i] != #[trigger] l.paths()[j],
{
    assert forall|i: int, j: int| 0 <= i < j < l.paths().len() implies #[trigger] l.paths()[i]
        != #[trigger] l.paths()[j] by {
        lemma_lex_irreflexive(l.paths()[i]);
    }
}

/// The filtered paths are in the known paths' descending order too.
pub proof fn lemma_filtered_descending(l: &DirList)
    requires
        l.wf(),
    ensures
        strictly_descending(l.filtered()),
{
    lemma_filter_keeps_descending(l.paths(), l.term());
}

/// The filtered paths are a subsequence of the known paths: none is made up,
/// none repeated, and their order is kept.
pub proof fn lemma_filtered_subsequence(l: &DirList)
    requires
        l.wf(),
    ensures
        is_subsequence(l.filtered(), l.paths()),
{
    lemma_filter_subsequence(l.paths(), l.term());
}

/// The display order holds each filtered path once, sorted by session
/// priority and then ascending by path.
pub proof fn lemma_display_order_sorted(
    l: &DirList,
    sessions: Seq<LiveSession>,
    resurrectable_sessions: Seq<ExitedSession>,
)
    requires
        l.wf(),
    ensures
        ({
            let s = session_order(l.filtered(), sessions, resurrectable_sessions);
            &&& s.len() == l.filtered().len()
            &&& forall|i: int| 0 <= i < s.len() ==> l.filtered().contains(#[trigger] s[i])
            &&& forall|i: int, j: int|
                0 <= i < j < s.len() ==> session_before(
                    #[trigger] s[i],
                    #[trigger] s[j],
                    sessions,
                    resurrectable_sessions,
                )
        }),
{
    lemma_filter_keeps_descending(l.paths(), l.term());
    lemma_session_order_sorted(l.filtered(), sessions, resurrectable_sessions);
}

/// Filtering again with the term and paths unchanged gives the same list.
pub proof fn lemma_refilter_unchanged(l: &DirList)
    requires
        l.wf(),
    ensures
        filter_matching(l.paths(), l.term()) == l.filtered(),
        filter_matching(l.filtered(), l.term()) == l.filtered(),
{
    lemma_filter_idempotent(l.paths(), l.term());
}

} // verus!
