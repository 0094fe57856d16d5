use lakach::nav::{
    next_index, next_tab, page_down_index, page_up_index, prev_tab, previous_index,
    selection_after_remove, Tab,
};
use lakach::paths::{
    folder_names_from_listing, join_path, parent_path, remote_descriptor, split_remote_source,
};

#[test]
fn source_with_colon_splits_at_first_colon() {
    let (host, path) = split_remote_source("user@host:/srv/media");
    assert_eq!(host, "user@host");
    assert_eq!(path, "/srv/media");
    let (host, path) = split_remote_source("h:a:b");
    assert_eq!(host, "h");
    assert_eq!(path, "a:b");
}

#[test]
fn source_without_colon_is_a_bare_host() {
    let (host, path) = split_remote_source("user@host");
    assert_eq!(host, "user@host");
    assert_eq!(path, "");
}

#[test]
fn join_path_handles_the_remote_home() {
    assert_eq!(join_path("", "films"), "films");
    assert_eq!(join_path("media", "films"), "media/films");
    assert_eq!(join_path("media/tv", "s1"), "media/tv/s1");
}

#[test]
fn parent_path_cuts_at_the_last_slash() {
    assert_eq!(parent_path("a/b/c", "base"), "a/b");
    assert_eq!(parent_path("a/b", "base"), "a");
    assert_eq!(parent_path("abc", "base"), "base");
    assert_eq!(parent_path("/abc", "base"), "");
}

#[test]
fn remote_descriptor_is_host_colon_path() {
    assert_eq!(remote_descriptor("user@host", "media/films"), "user@host:media/films");
    assert_eq!(remote_descriptor("h", ""), "h:");
}

#[test]
fn listing_lines_become_folder_names() {
    let lines = vec![
        "/srv/media/films".to_string(),
        "   ".to_string(),
        "/srv/media/tv/".to_string(),
        "".to_string(),
        "relative/dir".to_string(),
    ];
    let names = folder_names_from_listing(&lines);
    assert_eq!(names, vec!["films".to_string(), "tv".to_string(), "dir".to_string()]);
}

#[test]
fn next_and_previous_wrap_around() {
    assert_eq!(next_index(None, 3), Some(0));
    assert_eq!(next_index(Some(0), 3), Some(1));
    assert_eq!(next_index(Some(2), 3), Some(0));
    assert_eq!(previous_index(None, 3), Some(0));
    assert_eq!(previous_index(Some(0), 3), Some(2));
    assert_eq!(previous_index(Some(2), 3), Some(1));
    assert_eq!(next_index(Some(1), 0), Some(1));
    assert_eq!(previous_index(None, 0), None);
}

#[test]
fn paging_stops_at_the_edges() {
    assert_eq!(page_up_index(Some(25), 30), Some(15));
    assert_eq!(page_up_index(Some(3), 30), Some(0));
    assert_eq!(page_up_index(None, 30), Some(0));
    assert_eq!(page_down_index(Some(5), 30), Some(15));
    assert_eq!(page_down_index(Some(25), 30), Some(29));
    assert_eq!(page_down_index(None, 5), Some(4));
    assert_eq!(page_down_index(Some(2), 0), Some(2));
}

#[test]
fn selection_follows_a_removal() {
    assert_eq!(selection_after_remove(0, 0), None);
    assert_eq!(selection_after_remove(2, 2), Some(1));
    assert_eq!(selection_after_remove(1, 3), Some(1));
}

#[test]
fn tabs_cycle_both_ways() {
    assert_eq!(next_tab(Tab::Browser), Tab::Downloads);
    assert_eq!(next_tab(Tab::Downloads), Tab::History);
    assert_eq!(next_tab(Tab::History), Tab::Browser);
    assert_eq!(prev_tab(Tab::Browser), Tab::History);
    assert_eq!(prev_tab(Tab::Downloads), Tab::Browser);
    assert_eq!(prev_tab(Tab::History), Tab::Downloads);
    for t in [Tab::Browser, Tab::Downloads, Tab::History] {
        assert_eq!(prev_tab(next_tab(t)), t);
        assert_eq!(next_tab(prev_tab(t)), t);
    }
}
