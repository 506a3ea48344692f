use dir_picker::dirlist::DirList;
use dir_picker::filter::{fuzzy_filter, fuzzy_match};
use dir_picker::sessions::{ExitedSession, LiveSession};
use dir_picker::text::compare;
use dir_picker::utils::{format_base_text, format_duration, get_folder_name};
use dir_picker::view::{duplicate_names, viewport};

fn strings(v: &[&str]) -> Vec<String> {
    v.iter().map(|s| s.to_string()).collect()
}

fn live(name: &str, is_current: bool, users: usize) -> LiveSession {
    LiveSession { name: name.to_string(), is_current, users }
}

fn exited(name: &str, secs: u64) -> ExitedSession {
    ExitedSession { name: name.to_string(), secs }
}

fn all_selected(list: &mut DirList, live: &Vec<LiveSession>, ex: &Vec<ExitedSession>, n: usize) -> Vec<String> {
    let mut out = Vec::new();
    for _ in 0..n {
        out.push(list.get_selected(live, ex).unwrap());
        list.handle_down();
    }
    out
}

#[test]
fn duration_just_now() {
    assert_eq!(format_duration(0), "just now");
    assert_eq!(format_duration(59), "just now");
}

#[test]
fn duration_minutes_hours_days() {
    assert_eq!(format_duration(125), "2m ago");
    assert_eq!(format_duration(3665), "1h 1m ago");
    assert_eq!(format_duration(3600), "1h ago");
    assert_eq!(format_duration(90000), "1d 1h ago");
    assert_eq!(format_duration(86400), "1d ago");
    assert_eq!(format_duration(93780), "1d 2h 3m ago");
    assert_eq!(format_duration(7200), "2h ago");
    assert_eq!(format_duration(86400 * 12 + 60 * 45), "12d 45m ago");
}

#[test]
fn folder_name_is_last_component() {
    assert_eq!(get_folder_name("/home/x/proj"), "proj");
    assert_eq!(get_folder_name("/home/x/proj/"), "proj");
    assert_eq!(get_folder_name("/"), "");
    assert_eq!(get_folder_name("/home/.."), "");
}

#[test]
fn base_text_with_and_without_path() {
    let dups = strings(&["proj"]);
    assert_eq!(format_base_text("proj", "/a/proj", &dups), "       > proj (/a/proj)");
    assert_eq!(format_base_text("other", "/a/other", &dups), "       > other");
}

#[test]
fn compare_orders_strings() {
    assert_eq!(compare("a", "b"), -1);
    assert_eq!(compare("b", "a"), 1);
    assert_eq!(compare("ab", "ab"), 0);
    assert_eq!(compare("ab", "abc"), -1);
    assert_eq!(compare("", "a"), -1);
}

#[test]
fn fuzzy_match_subsequence_ignoring_case() {
    assert!(fuzzy_match("", "anything"));
    assert!(fuzzy_match("prj", "/home/Project"));
    assert!(fuzzy_match("PRJ", "/home/project"));
    assert!(!fuzzy_match("jp", "/home/project/x"));
    assert!(!fuzzy_match("z", "/home/project"));
}

#[test]
fn fuzzy_filter_keeps_order() {
    let dirs = strings(&["/z/web", "/m/api", "/a/webapp"]);
    assert_eq!(fuzzy_filter(&dirs, "web"), strings(&["/z/web", "/a/webapp"]));
    assert_eq!(fuzzy_filter(&dirs, ""), dirs);
    assert!(fuzzy_filter(&dirs, "qq").is_empty());
}

#[test]
fn update_dirs_dedups_and_sorts_descending() {
    let mut list = DirList::new();
    list.update_dirs(strings(&["/b", "/a", "/c", "/a"]));
    list.update_dirs(strings(&["/c", "/d", "/b"]));
    let none_live = Vec::new();
    let none_exited = Vec::new();
    let shown = all_selected(&mut list, &none_live, &none_exited, 4);
    assert_eq!(shown, strings(&["/a", "/b", "/c", "/d"]));
    assert_eq!(list.get_selected(&none_live, &none_exited), Some("/d".to_string()));
    let sorted = list.get_sorted_dirs_with_sessions(&none_live, &none_exited);
    assert_eq!(sorted.len(), 4);
}

#[test]
fn filter_twice_same_result() {
    let mut list = DirList::default();
    list.update_dirs(strings(&["/x/alpha", "/x/beta", "/x/gamma"]));
    list.set_search_term("a");
    let first = list.get_sorted_dirs_with_sessions(&Vec::new(), &Vec::new());
    list.filter();
    let second = list.get_sorted_dirs_with_sessions(&Vec::new(), &Vec::new());
    assert_eq!(first, second);
    list.set_search_term("bet");
    assert_eq!(list.get_sorted_dirs_with_sessions(&Vec::new(), &Vec::new()), strings(&["/x/beta"]));
}

#[test]
fn cursor_stays_in_bounds() {
    let mut list = DirList::new();
    let l = Vec::new();
    let e = Vec::new();
    list.handle_up();
    list.handle_down();
    assert_eq!(list.get_selected(&l, &e), None);
    list.update_dirs(strings(&["/a", "/b", "/c"]));
    list.handle_up();
    assert_eq!(list.get_selected(&l, &e), Some("/a".to_string()));
    list.handle_down();
    list.handle_down();
    list.handle_down();
    list.handle_down();
    assert_eq!(list.get_selected(&l, &e), Some("/c".to_string()));
    list.set_search_term("b");
    assert_eq!(list.get_selected(&l, &e), Some("/b".to_string()));
    list.handle_down();
    assert_eq!(list.get_selected(&l, &e), Some("/b".to_string()));
    list.reset();
    assert_eq!(list.get_selected(&l, &e), None);
}

#[test]
fn session_priority_order() {
    let mut list = DirList::new();
    list.update_dirs(strings(&["/p/d", "/p/c", "/p/b", "/p/a"]));
    let l = vec![live("a", true, 1), live("b", false, 3)];
    let e = vec![exited("c", 7200)];
    let sorted = list.get_sorted_dirs_with_sessions(&l, &e);
    assert_eq!(sorted, strings(&["/p/a", "/p/b", "/p/c", "/p/d"]));
    let l2 = vec![live("d", false, 0)];
    let e2 = vec![exited("a", 5)];
    let sorted = list.get_sorted_dirs_with_sessions(&l2, &e2);
    assert_eq!(sorted, strings(&["/p/d", "/p/a", "/p/b", "/p/c"]));
    assert_eq!(list.get_selected(&l2, &e2), Some("/p/d".to_string()));
}

#[test]
fn duplicates_show_full_path() {
    let dirs = strings(&["/home/x/proj", "/home/y/proj", "/home/z/solo"]);
    assert_eq!(duplicate_names(&dirs), strings(&["proj", "proj"]));
    let mut list = DirList::new();
    list.update_dirs(dirs);
    let lines = list.render(24, 80, &Vec::new(), &Vec::new());
    let texts: Vec<String> = lines.iter().map(|l| l.text.clone()).collect();
    assert_eq!(
        texts,
        strings(&[
            "       > proj (/home/x/proj) [NOT CREATED]",
            "       > proj (/home/y/proj) [NOT CREATED]",
            "       > solo [NOT CREATED]",
        ])
    );
    assert!(lines[0].selected);
    assert!(!lines[1].selected);
    assert!(lines[0].highlight.is_none());
}

#[test]
fn badge_text_and_spans() {
    let mut list = DirList::new();
    list.update_dirs(strings(&["/w/cur", "/w/busy", "/w/idle", "/w/old"]));
    let l = vec![live("cur", true, 3), live("busy", false, 12), live("idle", false, 0)];
    let e = vec![exited("old", 93780)];
    let lines = list.render(10, 80, &l, &e);
    assert_eq!(lines.len(), 4);
    assert_eq!(lines[0].text, "       > busy [12 users]");
    let h = lines[0].highlight.as_ref().unwrap();
    assert_eq!((h.color, h.start, h.end), (3, 15, 17));
    assert_eq!(&lines[0].text[15..17], "12");
    assert_eq!(lines[1].text, "       > cur [CURRENT - 3 users]");
    let h = lines[1].highlight.as_ref().unwrap();
    assert_eq!((h.color, h.start, h.end), (3, 24, 25));
    assert_eq!(&lines[1].text[24..25], "3");
    assert_eq!(lines[2].text, "       > idle [CREATED]");
    let h = lines[2].highlight.as_ref().unwrap();
    assert_eq!((h.color, h.start, h.end), (1, 15, 22));
    assert_eq!(&lines[2].text[15..22], "CREATED");
    assert_eq!(lines[3].text, "       > old [EXITED 1d 2h 3m ago]");
    let h = lines[3].highlight.as_ref().unwrap();
    assert_eq!((h.color, h.start, h.end), (3, 14, 20));
    assert_eq!(&lines[3].text[14..20], "EXITED");
}

#[test]
fn viewport_centres_cursor() {
    let vp = viewport(24, 50, 100);
    assert_eq!((vp.from, vp.count, vp.more), (41, 20, 39));
    let vp = viewport(24, 0, 100);
    assert_eq!((vp.from, vp.count, vp.more), (0, 20, 80));
    let vp = viewport(24, 99, 100);
    assert_eq!((vp.from, vp.count, vp.more), (80, 20, 0));
    let vp = viewport(3, 5, 10);
    assert_eq!((vp.from, vp.count, vp.more), (5, 0, 5));
}

#[test]
fn footer_only_when_list_overflows() {
    let vp = viewport(24, 0, 20);
    assert_eq!((vp.from, vp.count, vp.more), (0, 20, 0));
    let vp = viewport(24, 0, 21);
    assert_eq!((vp.from, vp.count, vp.more), (0, 20, 1));
    let mut list = DirList::new();
    let dirs: Vec<String> = (0..21).map(|i| format!("/d/{:02}", i)).collect();
    list.update_dirs(dirs);
    let lines = list.render(24, 80, &Vec::new(), &Vec::new());
    assert_eq!(lines.len(), 21);
    assert_eq!(lines[20].text, "       +1 more");
    let h = lines[20].highlight.as_ref().unwrap();
    assert_eq!((h.color, h.start, h.end), (2, 0, 14));
    let lines = list.render(25, 80, &Vec::new(), &Vec::new());
    assert_eq!(lines.len(), 21);
    assert!(lines.iter().all(|l| !l.text.contains("more")));
}

#[test]
fn empty_list_renders_nothing() {
    let list = DirList::new();
    assert!(list.render(24, 80, &Vec::new(), &Vec::new()).is_empty());
}

#[test]
fn default_selection_can_be_last_row() {
    let mut list = DirList::new();
    list.set_select_last(true);
    let l = Vec::new();
    let e = Vec::new();
    assert_eq!(list.get_selected(&l, &e), None);
    list.update_dirs(strings(&["/a", "/b", "/c"]));
    assert_eq!(list.get_selected(&l, &e), Some("/c".to_string()));
    list.handle_down();
    assert_eq!(list.get_selected(&l, &e), Some("/c".to_string()));
    list.handle_up();
    assert_eq!(list.get_selected(&l, &e), Some("/b".to_string()));
    list.set_select_last(false);
    assert_eq!(list.get_selected(&l, &e), Some("/a".to_string()));
}
