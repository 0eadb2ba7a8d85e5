//! Which files are scanned.
use i18n_tasks_rs::config::Config;
use i18n_tasks_rs::discover::{
    always_exclude, build_globs, candidates, needles, pattern_segments, segment_matches, sift,
    Finder, Segment,
};
use i18n_tasks_rs::yaml::Node;

const ROOT: &str = "/project";

const FILES: [&str; 8] = [
    "a/a/a/a.rb",
    "a/a/a.rb",
    "a/a/b.rb",
    "a/b/a.rb",
    "a/b/b.rb",
    "a.rb",
    ".hidden/a.rb",
    ".dotfile.rb",
];

fn scalar(s: &str) -> Node {
    Node::Scalar { value: s.to_string(), plain: true, line: 1 }
}

fn list(items: &[&str]) -> Node {
    Node::List { items: items.iter().map(|s| scalar(s)).collect(), line: 1 }
}

fn config(paths: &[&str], only: Option<&[&str]>, exclude: Option<&[&str]>) -> Config {
    let mut search = vec![(scalar("paths"), list(paths))];
    if let Some(globs) = only {
        search.push((scalar("only"), list(globs)));
    }
    if let Some(globs) = exclude {
        search.push((scalar("exclude"), list(globs)));
    }
    let entries = vec![(scalar("search"), Node::Mapping { entries: search, line: 1 })];
    Config::parse(
        "",
        Ok(Some(Node::Mapping { entries, line: 1 })),
        "i18n-tasks.yml",
        ROOT,
    )
    .expect("config parses")
}

fn children(dir: &str) -> (Vec<String>, Vec<String>) {
    let (mut dirs, mut files) = (Vec::new(), Vec::new());
    for file in FILES {
        let path = format!("{ROOT}/{file}");
        if let Some(rest) = path.strip_prefix(&format!("{dir}/")) {
            match rest.split_once('/') {
                Some((name, _)) => dirs.push(format!("{dir}/{name}")),
                None => files.push(path),
            }
        }
    }
    dirs.dedup();
    (dirs, files)
}

fn walk(finder: &Finder, dir: &str, out: &mut Vec<String>) {
    let (dirs, files) = children(dir);
    for file in files {
        if finder.consider(&file) {
            out.push(file);
        }
    }
    for dir in dirs {
        if finder.enters(&dir) {
            walk(finder, &dir, out);
        }
    }
}

fn found(cfg: &Config) -> Vec<String> {
    let finder = Finder::new(cfg).expect("globs compile");
    let mut out = Vec::new();
    for path in &cfg.search.paths {
        let top = if path == "." { ROOT.to_string() } else { format!("{ROOT}/{path}") };
        if FILES.iter().any(|f| format!("{ROOT}/{f}") == top) {
            if finder.consider(&top) {
                out.push(top);
            }
        } else {
            walk(&finder, &top, &mut out);
        }
    }
    let mut out: Vec<String> = candidates(&out)
        .iter()
        .map(|p| p.strip_prefix(&format!("{ROOT}/")).unwrap_or(p).to_string())
        .collect();
    out.sort();
    out
}

#[test]
fn finds_every_file_under_the_search_paths() {
    assert_eq!(
        found(&config(&["."], None, None)),
        vec![
            "a.rb",
            "a/a/a.rb",
            "a/a/a/a.rb",
            "a/a/b.rb",
            "a/b/a.rb",
            "a/b/b.rb",
        ]
    );
}

#[test]
fn search_paths_restrict_the_walk() {
    assert_eq!(
        found(&config(&["a/a", "a/b/a.rb"], None, None)),
        vec!["a/a/a.rb", "a/a/a/a.rb", "a/a/b.rb", "a/b/a.rb"]
    );
    assert!(found(&config(&["nowhere"], None, None)).is_empty());
}

#[test]
fn search_only_selects_a_subset() {
    assert_eq!(
        found(&config(&["a"], Some(&["a/a/**"]), None)),
        vec!["a/a/a.rb", "a/a/a/a.rb", "a/a/b.rb"]
    );
    assert_eq!(found(&config(&["a"], Some(&[]), None)).len(), 5);
}

#[test]
fn a_wildcard_glob_is_matched_relative_to_the_root() {
    assert_eq!(
        found(&config(&["."], None, Some(&["a/*/b.rb"]))),
        vec!["a.rb", "a/a/a.rb", "a/a/a/a.rb", "a/b/a.rb"]
    );
    assert_eq!(
        found(&config(&["."], Some(&["a/b/**"]), None)),
        vec!["a/b/a.rb", "a/b/b.rb"]
    );
    let absolute = format!("{ROOT}/a/b/**");
    assert!(found(&config(&["."], Some(&[&absolute]), None)).is_empty());
}

#[test]
fn a_wildcard_free_glob_prunes_the_directory_it_names() {
    assert_eq!(
        found(&config(&["."], None, Some(&["a/a"]))),
        vec!["a.rb", "a/b/a.rb", "a/b/b.rb"]
    );
    assert_eq!(found(&config(&["."], None, Some(&["a"]))), vec!["a.rb"]);
}

#[test]
fn search_exclude_prunes_a_subtree() {
    assert_eq!(
        found(&config(&["."], None, Some(&["a/a"]))),
        vec!["a.rb", "a/b/a.rb", "a/b/b.rb"]
    );
}

#[test]
fn a_file_named_in_search_paths_obeys_the_same_rules() {
    assert_eq!(found(&config(&["a/b/a.rb"], None, None)), vec!["a/b/a.rb"]);
    assert_eq!(found(&config(&[".hidden/a.rb"], None, None)), vec![".hidden/a.rb"]);
    assert!(found(&config(&[".dotfile.rb"], None, None)).is_empty());
    assert!(found(&config(&["a/b/a.rb"], None, Some(&["a/b/a.rb"]))).is_empty());
    assert!(found(&config(&["a/b/a.rb"], Some(&["a/a/**"]), None)).is_empty());
}

#[test]
fn a_bad_glob_is_reported_rather_than_ignored() {
    let e = Finder::new(&config(&["."], None, Some(&["a["])))
        .err()
        .expect("a malformed glob must not compile");
    assert!(e.contains("bad glob `a[`"), "{e}");
}

#[test]
fn the_prefilter_counts_what_it_skipped() {
    let finder = Finder::new(&config(&["."], None, None)).unwrap();
    let files: Vec<String> = vec![
        "/project/a.rb".to_string(),
        "/project/gone.rb".to_string(),
        "/project/plain.rb".to_string(),
    ];
    let verdicts = vec![
        Some(finder.holds_needle(b"t('key')\n")),
        None,
        Some(finder.holds_needle(b"puts 1\n")),
    ];
    let d = sift(&files, &verdicts);
    assert_eq!(d.prefiltered, 1);
    assert!(!d.files.iter().any(|p| p.ends_with("plain.rb")));
    assert_eq!(d.files, vec!["/project/a.rb".to_string()]);
}

#[test]
fn each_needle_is_found_and_nothing_else() {
    let finder = Finder::new(&config(&["."], None, None)).unwrap();
    for needle in needles() {
        assert!(finder.holds_needle(format!("x{needle}y").as_bytes()), "{needle}");
    }
    assert!(!finder.holds_needle(b""));
    assert!(!finder.holds_needle(b"\xff\xfe puts 1"));
    assert!(finder.holds_needle(b"\xff I18n.l(x)"));
}

#[test]
fn assets_are_never_scanned_whatever_the_config_says() {
    let cfg = config(&["."], Some(&["**"]), None);
    let finder = Finder::new(&cfg).unwrap();
    assert!(!finder.consider("/project/app/logo.png"));
    assert!(!finder.consider("/project/config/locales/en.yml"));
    assert!(finder.consider("/project/app/logo.rb"));
    assert!(always_exclude().contains(&"*.woff2".to_string()));
}

#[test]
fn a_path_outside_the_root_is_matched_whole() {
    let finder = Finder::new(&config(&["."], None, None)).unwrap();
    assert_eq!(finder.match_path("/project/app/a.rb"), "app/a.rb");
    assert_eq!(finder.match_path("/elsewhere/a.rb"), "/elsewhere/a.rb");
}

#[test]
fn a_glob_set_says_which_glob_is_bad() {
    assert!(build_globs(&vec!["a/*.rb".to_string()]).is_ok());
    assert!(build_globs(&vec!["ok".to_string(), "{".to_string()])
        .unwrap_err()
        .starts_with("bad glob `{`: "));
}

#[test]
fn a_read_pattern_is_walked_part_by_part() {
    assert!(segment_matches("*.en.yml", "devise.en.yml"));
    assert!(!segment_matches("*.en.yml", "devise.de.yml"));
    assert!(!segment_matches("a[", "a["));
    let parts = pattern_segments("config/**/*.yml");
    assert_eq!(parts.len(), 3);
    assert!(matches!(&parts[0], Segment::Name(n) if n == "config"));
    assert!(matches!(&parts[1], Segment::AnyDepth));
    assert!(matches!(&parts[2], Segment::Glob(g) if g == "*.yml"));
}

#[test]
fn candidates_come_sorted_and_once() {
    let out = candidates(&vec![
        "b.rb".to_string(),
        "a/b.rb".to_string(),
        "b.rb".to_string(),
        "a.rb".to_string(),
    ]);
    assert_eq!(out, vec!["a/b.rb", "a.rb", "b.rb"]);
}
