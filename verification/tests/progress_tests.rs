use lakach::progress::parse_rsync_line;

#[test]
fn progress_line_after_filename_line() {
    let mut cur = String::new();
    let first = parse_rsync_line("photo.jpg", &mut cur);
    assert!(first.is_none());
    assert_eq!(cur, "photo.jpg");
    let second = parse_rsync_line("   1,234  45%  1.23MB/s  0:00:05", &mut cur);
    let p = second.expect("progress line must yield a snapshot");
    assert_eq!(p.file_name, "photo.jpg");
    assert_eq!(p.percentage, 45);
    assert_eq!(p.speed, "1.23MB/s");
    assert_eq!(cur, "photo.jpg");
}

#[test]
fn progress_before_any_filename_uses_sentinel() {
    let mut cur = String::new();
    let r = parse_rsync_line("   9,999  7%  0.50MB/s  0:00:09", &mut cur);
    let p = r.expect("progress line must yield a snapshot");
    assert_eq!(p.file_name, "Syncing...");
    assert_eq!(p.percentage, 7);
    assert_eq!(p.speed, "0.50MB/s");
    assert_eq!(cur, "");
}

#[test]
fn zero_and_full_percentages_are_exact() {
    let mut cur = String::new();
    let p = parse_rsync_line(" 0  0%  1.00MB/s", &mut cur).unwrap();
    assert_eq!(p.percentage, 0);
    let p = parse_rsync_line(" 4,096  100%  2.00MB/s", &mut cur).unwrap();
    assert_eq!(p.percentage, 100);
}

#[test]
fn malformed_percentage_falls_back_to_zero() {
    let mut cur = String::new();
    let p = parse_rsync_line(" abc%  1.00MB/s", &mut cur).unwrap();
    assert_eq!(p.percentage, 0);
    let p = parse_rsync_line(" 1,2%  1.00MB/s", &mut cur).unwrap();
    assert_eq!(p.percentage, 0);
}

#[test]
fn oversized_percentage_is_clamped() {
    let mut cur = String::new();
    let p = parse_rsync_line(" 150%  1.00MB/s", &mut cur).unwrap();
    assert_eq!(p.percentage, 100);
}

#[test]
fn signed_percentage_token_parses() {
    let mut cur = String::new();
    let p = parse_rsync_line(" +45%  1.00MB/s", &mut cur).unwrap();
    assert_eq!(p.percentage, 45);
}

#[test]
fn last_percentage_and_speed_tokens_win() {
    let mut cur = String::new();
    let p = parse_rsync_line(" 10%  0.10MB/s  20%  0.20MB/s", &mut cur).unwrap();
    assert_eq!(p.percentage, 20);
    assert_eq!(p.speed, "0.20MB/s");
}

#[test]
fn progress_line_never_mutates_cursor() {
    let mut cur = String::from("kept.bin");
    let p = parse_rsync_line("   5  55%  9.99kB/s", &mut cur).unwrap();
    assert_eq!(p.file_name, "kept.bin");
    assert_eq!(cur, "kept.bin");
}

#[test]
fn filename_line_never_emits_snapshot() {
    let mut cur = String::new();
    assert!(parse_rsync_line("movie.mkv", &mut cur).is_none());
    assert_eq!(cur, "movie.mkv");
}

#[test]
fn progress_check_wins_over_filename_shape() {
    let mut cur = String::from("before");
    let r = parse_rsync_line("odd%name/s", &mut cur);
    let p = r.expect("a line with % and /s is a progress line, whatever its shape");
    assert_eq!(p.percentage, 0);
    assert_eq!(p.speed, "odd%name/s");
    assert_eq!(cur, "before");
}

#[test]
fn filename_line_stores_basename_only() {
    let mut cur = String::new();
    assert!(parse_rsync_line("season1/episode2/show.mkv", &mut cur).is_none());
    assert_eq!(cur, "show.mkv");
}

#[test]
fn trailing_slash_still_names_last_segment() {
    let mut cur = String::new();
    assert!(parse_rsync_line("dir/sub/", &mut cur).is_none());
    assert_eq!(cur, "sub");
}

#[test]
fn dot_segments_are_skipped() {
    let mut cur = String::from("old");
    assert!(parse_rsync_line("a/b/.", &mut cur).is_none());
    assert_eq!(cur, "b");
    assert!(parse_rsync_line("a/..", &mut cur).is_none());
    assert_eq!(cur, "b");
}

#[test]
fn status_phrases_are_not_filenames() {
    let mut cur = String::from("kept");
    assert!(parse_rsync_line("receiving incremental file list", &mut cur).is_none());
    assert!(parse_rsync_line("sending incremental file list", &mut cur).is_none());
    assert!(parse_rsync_line("sent 1,234 bytes  received 99 bytes", &mut cur).is_none());
    assert!(parse_rsync_line("total size is 4,096", &mut cur).is_none());
    assert!(parse_rsync_line("building file list ...", &mut cur).is_none());
    assert!(parse_rsync_line("x (xfr#1, to-chk=0/2)", &mut cur).is_none());
    assert!(parse_rsync_line("x (xfr#1, to-check=0/2)", &mut cur).is_none());
    assert_eq!(cur, "kept");
}

#[test]
fn speedup_line_is_a_progress_line_not_a_filename() {
    // "sent ... bytes/sec ... speedup ..." contains both % markers rarely;
    // a plain speedup line without % is neither a progress nor filename line.
    let mut cur = String::from("kept");
    assert!(parse_rsync_line("total size is 1.2K  speedup is 1.00", &mut cur).is_none());
    assert_eq!(cur, "kept");
}

#[test]
fn blank_and_indented_lines_change_nothing() {
    let mut cur = String::from("kept");
    assert!(parse_rsync_line("", &mut cur).is_none());
    assert!(parse_rsync_line("   ", &mut cur).is_none());
    assert_eq!(cur, "kept");
}

#[test]
fn overlong_line_is_not_a_filename() {
    let mut cur = String::from("kept");
    let long = "x".repeat(200);
    assert!(parse_rsync_line(&long, &mut cur).is_none());
    assert_eq!(cur, "kept");
    let just_fits = "y".repeat(199);
    assert!(parse_rsync_line(&just_fits, &mut cur).is_none());
    assert_eq!(cur, just_fits);
}

#[test]
fn unicode_whitespace_trims_and_separates() {
    // U+00A0 (no-break space) is whitespace to the parser, as str::trim has it
    let mut cur = String::from("kept");
    assert!(parse_rsync_line("\u{a0}\u{2003}photo.jpg\u{a0}", &mut cur).is_none());
    assert_eq!(cur, "photo.jpg");
    let p = parse_rsync_line("\u{a0}12%\u{2002}9.9MB/s", &mut cur).unwrap();
    assert_eq!(p.percentage, 12);
    assert_eq!(p.speed, "9.9MB/s");
}

#[test]
fn two_streams_keep_independent_cursors() {
    let mut out_cur = String::new();
    let mut err_cur = String::new();
    assert!(parse_rsync_line("from_stdout.bin", &mut out_cur).is_none());
    let p = parse_rsync_line("  1  50%  1.00MB/s", &mut err_cur).unwrap();
    assert_eq!(p.file_name, "Syncing...");
    let p = parse_rsync_line("  1  60%  1.00MB/s", &mut out_cur).unwrap();
    assert_eq!(p.file_name, "from_stdout.bin");
}
