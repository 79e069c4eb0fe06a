use gitplot::git_walk::{tally_extensions, BlobOutcome};
use gitplot::loc::{
    code_lines_or_newlines, count_code_lines, count_code_lines_with_lang, count_newlines,
    extension_of, language_for, Language,
};
use std::path::Path;

fn std_bucket(p: &str) -> String {
    Path::new(p)
        .extension()
        .and_then(|e| e.to_str())
        .map(|s| s.to_ascii_lowercase())
        .unwrap_or_else(|| "(no ext)".to_string())
}

#[test]
fn extension_of_common_paths() {
    assert_eq!(extension_of("src/main.rs"), "rs");
    assert_eq!(extension_of("docs/README"), "(no ext)");
    assert_eq!(extension_of(".gitignore"), "(no ext)");
    assert_eq!(extension_of("assets/Logo.PNG"), "png");
    assert_eq!(extension_of("a/archive.tar.gz"), "gz");
    assert_eq!(extension_of("weird."), "");
    assert_eq!(extension_of("dir.d/file"), "(no ext)");
    assert_eq!(extension_of(""), "(no ext)");
}

#[test]
fn extension_of_agrees_with_path_extension() {
    let paths = [
        "a", "a.b", "a.b.c", ".a", ".a.b", "..", "...", "a/..", "a/.", "a/./", "./a.Rs", "a.rs/",
        "/", "//", "/x.TOML", "x/y/z.Md", "a..b", "a.b/", "a/b.c/.", ".", "./", "a/.hidden",
        "a/.hidden.TXT", "ÄÖ.ÜX", "dir/ñ.RS", "x.y/..", "x/..z", "x/.",
    ];
    for p in paths {
        assert_eq!(extension_of(p), std_bucket(p), "at {p:?}");
    }
}

#[test]
fn newline_counting() {
    assert_eq!(count_newlines(b""), 0);
    assert_eq!(count_newlines(b"a\nb\n\nc"), 3);
    assert_eq!(code_lines_or_newlines(Some(7), b"\n\n"), 7);
    assert_eq!(code_lines_or_newlines(None, b"\n\n"), 2);
}

#[test]
fn counting_with_a_language_skips_blanks_and_comments() {
    let src = b"fn main() {\n    // hello\n\n    let x = 1;\n}\n";
    let rust = Some(Language { name: "Rust".to_string() });
    assert_eq!(count_code_lines_with_lang(rust, src), 3);
    assert_eq!(count_code_lines_with_lang(None, src), 5);
    let unknown = Some(Language { name: "NoSuchLanguage".to_string() });
    assert_eq!(count_code_lines_with_lang(unknown, src), 5);
}

#[test]
fn counting_by_path() {
    let src = b"fn main() {\n    // hello\n\n    let x = 1;\n}\n";
    assert_eq!(count_code_lines("src/main.rs", src), 3);
    assert_eq!(count_code_lines("data/table.zzzqqq", b"a\n\nb\n"), 3);
    assert_eq!(language_for("src/main.rs"), Some(Language { name: "Rust".to_string() }));
    assert_eq!(language_for("data/table.zzzqqq"), None);
}

#[test]
fn tally_sums_per_bucket_and_skips_binary_and_empty() {
    let blobs = vec![
        ("rs".to_string(), BlobOutcome::Lines(3)),
        ("md".to_string(), BlobOutcome::Binary),
        ("rs".to_string(), BlobOutcome::Lines(2)),
        ("json".to_string(), BlobOutcome::Lines(0)),
        ("md".to_string(), BlobOutcome::Lines(4)),
    ];
    let mut files: Vec<(String, u64)> =
        tally_extensions(&blobs).into_iter().map(|f| (f.extension, f.code_lines)).collect();
    files.sort();
    assert_eq!(files, vec![("md".to_string(), 4), ("rs".to_string(), 5)]);
}

#[test]
fn tally_of_binary_only_tree_is_empty() {
    let blobs = vec![("png".to_string(), BlobOutcome::Binary)];
    assert!(tally_extensions(&blobs).is_empty());
    assert!(tally_extensions(&vec![]).is_empty());
}

#[test]
fn languages_found_for_paths_are_counted_by_tokei() {
    let src = b"x = 1\n# note\n\ny = 2\n";
    for p in ["a/b.py", "Cargo.toml", "web/app.JS", "notes.md", "build.sh", "x/y.c"] {
        let lang = language_for(p).expect(p);
        // A blank line is never code, so tokei's count stays below the newline count.
        assert!(count_code_lines_with_lang(Some(lang), src) < count_newlines(src), "at {p}");
    }
    assert_eq!(language_for("a/b.py").unwrap().name, "Python");
    assert_eq!(count_code_lines("a/b.py", src), 2);
}

#[test]
fn case_variants_share_a_bucket() {
    assert_eq!(extension_of("src/Main.RS"), extension_of("src/main.rs"));
    assert_eq!(extension_of("A/B.Json"), "json");
    assert_eq!(extension_of("A/README"), extension_of("a/readme"));
}
