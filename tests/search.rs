use file_finder::discovery::FindProcess;
use file_finder::filter::{batch_bound, InTextFileFilter, BATCH_COUNT};
use file_finder::find_app::{FindApp, FindAppArgs};
use file_finder::fs::FsController;
use file_finder::ls::LsApp;
use file_finder::occurrence::{get_occurence_path, Context, Kind, Occurence};
use file_finder::path_order::path_less;
use file_finder::strategies::{occurence_before, PrintStrategy, SortStrategy};
use file_finder::text::{chars_of, contains_seq, file_name_is, has_suffix};

/// A directory tree held in memory.
#[derive(Clone)]
struct MemFs {
    dirs: Vec<(String, Vec<String>)>,
    files: Vec<(String, Option<String>)>,
}

impl MemFs {
    fn new() -> MemFs {
        MemFs { dirs: Vec::new(), files: Vec::new() }
    }

    fn dir(mut self, path: &str, children: &[&str]) -> MemFs {
        self.dirs.push((path.to_string(), children.iter().map(|c| c.to_string()).collect()));
        self
    }

    fn file(mut self, path: &str, contents: Option<&str>) -> MemFs {
        self.files.push((path.to_string(), contents.map(|c| c.to_string())));
        self
    }
}

impl FsController for MemFs {
    fn get_list_dir(&self, path: &str) -> Result<Vec<String>, String> {
        match self.dirs.iter().find(|d| d.0 == path) {
            Some(d) => Ok(d.1.clone()),
            None => Err(format!("cannot list {}", path)),
        }
    }

    fn is_file(&self, path: &str) -> bool {
        self.files.iter().any(|f| f.0 == path)
    }

    fn is_dir(&self, path: &str) -> bool {
        self.dirs.iter().any(|d| d.0 == path)
    }

    fn read_to_string(&self, path: &str) -> Result<String, String> {
        match self.files.iter().find(|f| f.0 == path) {
            Some((_, Some(c))) => Ok(c.clone()),
            _ => Err(format!("cannot read {}", path)),
        }
    }

    fn canonicalize(&self, path: &str) -> String {
        if self.is_dir(path) || self.is_file(path) {
            format!("/abs{}", path)
        } else {
            String::new()
        }
    }
}

fn args(name: &str, sort: bool, in_file: Option<&str>) -> FindAppArgs {
    FindAppArgs {
        name: name.to_string(),
        sort,
        filename: None,
        in_file: in_file.map(|s| s.to_string()),
    }
}

fn kinds_and_paths(v: &[Occurence]) -> Vec<(Kind, String)> {
    v.iter()
        .map(|o| {
            let kind = match o {
                Occurence::File(_) => Kind::File,
                Occurence::Dir(_) => Kind::Dir,
                Occurence::TextFile(_) => Kind::TextFile,
            };
            (kind, get_occurence_path(o).clone())
        })
        .collect()
}

#[test]
fn content_filter_keeps_only_matching_file() {
    let fs = MemFs::new()
        .dir("/r", &["/r/a", "/r/b"])
        .dir("/r/a", &["/r/a/target.txt"])
        .dir("/r/b", &["/r/b/target.txt"])
        .file("/r/a/target.txt", Some("hello"))
        .file("/r/b/target.txt", Some("world"));
    let app = FindApp::new(fs, "/r".to_string(), args("target.txt", false, Some("hello")));
    let lines = app.run().unwrap();
    assert_eq!(lines, vec!["/abs/r/a/target.txt".to_string()]);
}

#[test]
fn directory_and_file_with_same_name() {
    let fs = MemFs::new()
        .dir("/r", &["/r/x", "/r/dup"])
        .dir("/r/x", &["/r/x/dup"])
        .dir("/r/x/dup", &[])
        .file("/r/dup", Some(""));
    let process = FindProcess::new(fs.clone(), "/r".to_string());
    let found = process.find_files("dup").unwrap();
    assert_eq!(
        kinds_and_paths(&found),
        vec![(Kind::Dir, "/r/x/dup".to_string()), (Kind::File, "/r/dup".to_string())]
    );
    let app = FindApp::new(fs, "/r".to_string(), args("dup", false, None));
    let lines = app.run().unwrap();
    assert_eq!(lines, vec!["/abs/r/x/dup".to_string(), "/abs/r/dup".to_string()]);
}

#[test]
fn empty_tree_gives_no_output() {
    let fs = MemFs::new().dir("/r", &[]);
    let app = FindApp::new(fs, "/r".to_string(), args("anything", true, None));
    assert_eq!(app.run(), Ok(Vec::new()));
}

#[test]
fn sorted_results_in_path_order() {
    let fs = MemFs::new()
        .dir("/", &["/c", "/a", "/b"])
        .file("/c", Some(""))
        .file("/a", Some(""))
        .file("/b", Some(""));
    let mut context = Context {
        name: "x".to_string(),
        files: vec![
            Occurence::with_kind(Kind::File, "/c".to_string()),
            Occurence::with_kind(Kind::File, "/a".to_string()),
            Occurence::with_kind(Kind::File, "/b".to_string()),
        ],
    };
    assert!(SortStrategy {}.post_process(&mut context).is_ok());
    let paths: Vec<String> = context.files.iter().map(|o| get_occurence_path(o).clone()).collect();
    assert_eq!(paths, vec!["/a".to_string(), "/b".to_string(), "/c".to_string()]);
    let lines = PrintStrategy::Console(file_finder::strategies::PrintConsoleStrategy {}).print(&fs, &context);
    assert_eq!(lines, vec!["/abs/a".to_string(), "/abs/b".to_string(), "/abs/c".to_string()]);
}

#[test]
fn sorted_search_end_to_end() {
    let fs = MemFs::new()
        .dir("/", &["/c", "/a", "/b"])
        .dir("/c", &["/c/t"])
        .dir("/a", &["/a/t"])
        .dir("/b", &["/b/t"])
        .file("/c/t", Some(""))
        .file("/a/t", Some(""))
        .file("/b/t", Some(""));
    let app = FindApp::new(fs, "/".to_string(), args("t", true, None));
    assert_eq!(
        app.run().unwrap(),
        vec!["/abs/a/t".to_string(), "/abs/b/t".to_string(), "/abs/c/t".to_string()]
    );
}

#[test]
fn unlistable_root_is_an_error() {
    let fs = MemFs::new();
    let app = FindApp::new(fs, "/missing".to_string(), args("t", false, None));
    assert!(app.run().is_err());
}

#[test]
fn unlistable_subdirectory_is_skipped() {
    let fs = MemFs::new()
        .dir("/r", &["/r/broken", "/r/t"])
        .file("/r/t", Some(""));
    // "/r/broken" is not a directory the tree can list, nor a file.
    let process = FindProcess::new(fs, "/r".to_string());
    let found = process.find_files("t").unwrap();
    assert_eq!(kinds_and_paths(&found), vec![(Kind::File, "/r/t".to_string())]);
}

#[test]
fn text_names_are_candidates() {
    let fs = MemFs::new()
        .dir("/r", &["/r/main.rs", "/r/d"])
        .dir("/r/d", &["/r/d/main.rs"])
        .file("/r/main.rs", Some("fn main() {}"))
        .file("/r/d/main.rs", Some(""));
    let process = FindProcess::new(fs, "/r".to_string());
    let found = process.find_files("main.rs").unwrap();
    assert_eq!(
        kinds_and_paths(&found),
        vec![
            (Kind::TextFile, "/r/main.rs".to_string()),
            (Kind::TextFile, "/r/d/main.rs".to_string())
        ]
    );
}

#[test]
fn filter_drops_other_kinds_and_unreadable_files() {
    let fs = MemFs::new()
        .file("/a.txt", Some("needle here"))
        .file("/b.txt", None)
        .file("/c", Some("needle"));
    let mut context = Context {
        name: "x".to_string(),
        files: vec![
            Occurence::with_kind(Kind::TextFile, "/a.txt".to_string()),
            Occurence::with_kind(Kind::TextFile, "/b.txt".to_string()),
            Occurence::with_kind(Kind::File, "/c".to_string()),
            Occurence::with_kind(Kind::Dir, "/d".to_string()),
        ],
    };
    let filter = InTextFileFilter::new("needle".to_string());
    assert!(filter.post_process(&fs, &mut context).is_ok());
    assert_eq!(kinds_and_paths(&context.files), vec![(Kind::File, "/a.txt".to_string())]);
}

#[test]
fn filter_over_many_batches_keeps_order() {
    let mut fs = MemFs::new();
    let mut files = Vec::new();
    for i in 0..200 {
        let path = format!("/f{}.txt", i);
        let contents = if i % 3 == 0 { "yes" } else { "no" };
        fs = fs.file(&path, Some(contents));
        files.push(Occurence::with_kind(Kind::TextFile, path));
    }
    let mut context = Context { name: "x".to_string(), files };
    assert!(InTextFileFilter::new("yes".to_string()).post_process(&fs, &mut context).is_ok());
    let expected: Vec<(Kind, String)> =
        (0..200).filter(|i| i % 3 == 0).map(|i| (Kind::File, format!("/f{}.txt", i))).collect();
    assert_eq!(kinds_and_paths(&context.files), expected);
}

#[test]
fn batch_bounds_cover_the_input() {
    assert_eq!(BATCH_COUNT, 64);
    assert_eq!(batch_bound(200, 0), 0);
    assert_eq!(batch_bound(200, 1), 4);
    assert_eq!(batch_bound(200, 50), 200);
    assert_eq!(batch_bound(200, 64), 200);
    assert_eq!(batch_bound(0, 64), 0);
    assert_eq!(batch_bound(10, 3), 3);
}

#[test]
fn file_name_comparison() {
    let p = chars_of("/a/b/target.txt");
    assert!(file_name_is(&p, &chars_of("target.txt")));
    assert!(!file_name_is(&p, &chars_of("b/target.txt")));
    assert!(!file_name_is(&p, &chars_of("target")));
    assert!(file_name_is(&chars_of("/a/"), &chars_of("")));
    assert!(has_suffix(&p, &chars_of(".txt")));
    assert!(!has_suffix(&p, &chars_of(".rs")));
}

#[test]
fn substring_search() {
    assert!(contains_seq(&chars_of("say hello"), &chars_of("hello")));
    assert!(contains_seq(&chars_of("abc"), &chars_of("")));
    assert!(!contains_seq(&chars_of("hell"), &chars_of("hello")));
    assert!(!contains_seq(&chars_of("Hello"), &chars_of("hello")));
}

#[test]
fn path_order_puts_separator_first() {
    assert!(path_less(&chars_of("/a"), &chars_of("/b")));
    assert!(!path_less(&chars_of("/b"), &chars_of("/a")));
    assert!(!path_less(&chars_of("/a"), &chars_of("/a")));
    assert!(path_less(&chars_of("/a"), &chars_of("/a/b")));
    assert!(path_less(&chars_of("/a/b"), &chars_of("/a-b")));
    let a = Occurence::with_kind(Kind::File, "/x/y".to_string());
    let b = Occurence::with_kind(Kind::Dir, "/x.y".to_string());
    assert!(occurence_before(&a, &b));
}

#[test]
fn ls_lists_file_names() {
    let fs = MemFs::new()
        .dir("/home/d", &["/home/d/one", "/home/d/sub", "/home/d/two.txt"])
        .dir("/home/d/sub", &[])
        .file("/home/d/one", Some(""))
        .file("/home/d/two.txt", Some(""));
    let ls = LsApp::new(fs.clone(), "/home".to_string());
    assert_eq!(ls.print_files("d".to_string()), Ok(vec!["one".to_string(), "two.txt".to_string()]));
    assert_eq!(
        ls.print_files("/home/d".to_string()),
        Ok(vec!["one".to_string(), "two.txt".to_string()])
    );
    let ls_slash = LsApp::new(fs, "/home/".to_string());
    assert_eq!(ls_slash.print_files("d".to_string()), Ok(vec!["one".to_string(), "two.txt".to_string()]));
    assert!(ls_slash.print_files("nowhere".to_string()).is_err());
}

#[test]
fn output_to_file_target() {
    let fs = MemFs::new().dir("/r", &[]);
    let mut a = args("t", false, None);
    a.filename = Some("out.txt".to_string());
    let app = FindApp::new(fs, "/r".to_string(), a);
    assert_eq!(app.print_strategy.target(), Some(&"out.txt".to_string()));
    let fs2 = MemFs::new().dir("/r", &[]);
    let app2 = FindApp::new(fs2, "/r".to_string(), args("t", false, None));
    assert_eq!(app2.print_strategy.target(), None);
}
