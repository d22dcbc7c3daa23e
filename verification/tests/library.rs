use tuner::paths::stem_of;
use tuner::library::{
    clean_name, cut, index_is_current, is_music, is_video, lists_all, prog_name, stream_duration,
    title_from_tags, usable, walk_videos, FileInfo, Tags, Visit,
};

fn file(path: &str, duration: u64) -> FileInfo {
    FileInfo {
        path: path.to_string(),
        stem: "Late_Show_raw".to_string(),
        folder: None,
        duration,
        width: 640,
        height: 480,
        title: None,
        bumper: false,
    }
}

fn tags(title: Option<&str>, comment: Option<&str>, artist: Option<&str>) -> Tags {
    let own = |o: Option<&str>| o.map(|s| s.to_string());
    Tags { title: own(title), description: None, comment: own(comment), artist: own(artist) }
}

#[test]
fn names_lose_what_stands_in_brackets() {
    assert_eq!(clean_name("MTV (1987)"), "MTV");
    assert_eq!(clean_name(" HBO "), "HBO");
    assert_eq!(clean_name("A(b)"), "A(b)");
    for stem in ["MTV (US)", " a  (b) (c)", "(x)", " (y)", "\u{3000}z\t", ""] {
        let r = clean_name(stem);
        assert_eq!(clean_name(&r), r);
        assert_eq!(clean_name(&format!("{r} (US) (HD)")), r);
        assert_eq!(r.trim(), r);
        assert!(!r.contains(" (") && stem.contains(&r));
    }
    assert_eq!(cut("héllo", 2), "hé");
    assert_eq!(cut("a", 9), "a");
}

#[test]
fn program_names_are_uppercase_and_cut() {
    let mut f = file("/x/Late_Show_raw.mp4", 1);
    assert_eq!(prog_name(&f, usize::MAX), "LATE_SHOW");
    assert_eq!(prog_name(&f, 4), "LATE");
    f.stem = "show_raw_raw".to_string();
    assert_eq!(prog_name(&f, 100), "SHOW_RAW");
    f.title = Some("Straße".to_string());
    assert_eq!(prog_name(&f, usize::MAX), "STRASSE");
}

#[test]
fn titles_come_from_tags() {
    let none = tags(None, None, None);
    assert_eq!(title_from_tags(&none, None), None);
    assert_eq!(title_from_tags(&tags(Some(" News "), None, None), None), Some("News".to_string()));
    assert_eq!(title_from_tags(&tags(None, Some("c"), None), None), Some("c".to_string()));
    // A blank tag is passed over, within the file's tags and then for the stream's.
    assert_eq!(title_from_tags(&tags(Some("  "), Some("c"), None), None), Some("c".to_string()));
    let mut news = tags(Some(" "), Some("c"), None);
    news.description = Some("Evening News".to_string());
    assert_eq!(title_from_tags(&news, None), Some("Evening News".to_string()));
    let stream = tags(Some("S"), None, None);
    assert_eq!(title_from_tags(&tags(Some("  "), None, None), Some(&stream)), Some("S".to_string()));
    let song = tags(Some("Blue"), None, Some(" Ana "));
    assert_eq!(title_from_tags(&song, None), Some("Ana - Blue".to_string()));
    let named = tags(Some("ANA live"), None, Some("Ana"));
    assert_eq!(title_from_tags(&named, None), Some("ANA live".to_string()));
    assert_eq!(title_from_tags(&none, Some(&tags(Some("S"), None, Some("x")))), Some("S".to_string()));
}

#[test]
fn videos_and_music_are_told_by_extension() {
    for x in ["mp4", "M4V", "mov", "mkv", "webm", "avi", "mpg", "mpeg", "WMV"] {
        assert!(is_video(Some(x)));
    }
    assert!(!is_video(Some("mp3")));
    assert!(!is_video(None));
    for x in ["mp3", "mp4", "m4a", "ogg", "webm", "FLAC", "wav"] {
        assert!(is_music(Some(x)));
    }
    assert!(!is_music(Some("mkv")));
    assert_eq!(walk_videos(true, true, None), Visit::Descend);
    assert_eq!(walk_videos(true, false, Some("mp4")), Visit::Skip);
    assert_eq!(walk_videos(false, false, Some("mp4")), Visit::Take);
    assert_eq!(walk_videos(false, true, Some("txt")), Visit::Skip);
}

#[test]
fn an_index_counts_if_it_lists_the_same_paths() {
    let idx = vec![file("/a", 1), file("/b", 1)];
    let paths = |v: &[&str]| v.iter().map(|s| Some(s.to_string())).collect::<Vec<_>>();
    assert!(index_is_current(&idx, &paths(&["/a", "/b"])));
    assert!(!index_is_current(&idx, &paths(&["/b", "/a"])));
    assert!(!index_is_current(&idx, &paths(&["/a"])));
    assert!(!index_is_current(&idx, &vec![Some("/a".to_string()), None]));
    // Paths are compared as such: a doubled separator makes no difference.
    let doubled = vec![file("/v//a", 1), file("/v/b/", 1)];
    assert!(index_is_current(&doubled, &paths(&["/v/a", "/v/b"])));
    assert!(!index_is_current(&doubled, &paths(&["/v/a", "/vb"])));
    for (a, b) in [("/v/a", "v/a"), ("./a", "a"), ("/v/./a", "/v/a"), ("v/../a", "a"), ("/v/A", "/v/a"), ("a.b", "ab")] {
        let same = std::path::Path::new(a) == std::path::Path::new(b);
        assert_eq!(index_is_current(&vec![file(a, 1)], &paths(&[b])), same, "{a} {b}");
    }
    assert!(lists_all(2, &vec![true, true]) && !lists_all(2, &vec![true, false]));
    assert!(!lists_all(2, &vec![true]) && lists_all(0, &vec![]));
}

#[test]
fn paths_hold_the_names_of_file_and_folder() {
    let names = |p: &str| {
        let f = FileInfo::at(p.to_string());
        assert_eq!((f.path.as_str(), f.duration, f.bumper), (p, 0, false));
        (f.stem, f.folder)
    };
    let some = |s: &str| Some(s.to_string());
    assert_eq!(names("/i/MTV (US)/x.y.mp4"), ("x.y".to_string(), some("MTV (US)")));
    assert_eq!(names("v/a"), ("a".to_string(), some("v")));
    assert_eq!(names("a.mp4"), ("a".to_string(), None));
    assert_eq!(names("/.hidden"), (".hidden".to_string(), None));
    assert_eq!(names(""), (String::new(), None));
    for p in ["/a/b/c.d", "a//b.c/.", "../x", "x/..", "a.", "/", ".", "..", "a/./b", "./b", "..a", "a/b\\c.d"] {
        let path = std::path::Path::new(p);
        let stem = path.file_stem().map(|s| s.to_str().unwrap().to_string()).unwrap_or_default();
        let folder = path.parent().and_then(|d| d.file_name()).map(|s| s.to_str().unwrap().to_string());
        assert_eq!(names(p), (stem, folder), "{p}");
    }
    assert_eq!((stem_of("a.b.c"), stem_of(".c"), stem_of("c")), ("a.b".to_string(), ".c".to_string(), "c".to_string()));
}

#[test]
fn short_and_unreadable_files_are_left_out() {
    let v = usable(vec![Some(file("/a", 500_000)), None, Some(file("/b", 500_001))]);
    assert_eq!(v.len(), 1);
    assert_eq!(v[0].path, "/b");
}

#[test]
fn durations_come_from_the_stream_or_the_container() {
    assert_eq!(stream_duration(90_000, 1, 90_000, 7), 1_000_000);
    assert_eq!(stream_duration(1, 1, 3, 7), 333_333);
    assert_eq!(stream_duration(0, 1, 90_000, 2_500_000), 2_500_000);
    assert_eq!(stream_duration(-1, 1, 90_000, -5), 0);
}
