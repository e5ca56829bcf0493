use mdsummary::book::make_title_case;
use mdsummary::book::print_files;
use mdsummary::book::Chapter;
use mdsummary::book::Format;

// Building twice from the same inputs gives structurally identical trees.
#[test]
fn build_deterministic_test() {
    let input = vec![
        "about.md".to_string(),
        "chapter1/file1.md".to_string(),
        "chapter1/subchap/file1.md".to_string(),
        "chapter2/README.md".to_string(),
    ];
    let first = Chapter::new("Summary".to_string(), &input);
    let second = Chapter::new("Summary".to_string(), &input);
    assert_eq!(first, second);
}

// Every input path is stored verbatim in exactly one node's files.
#[test]
fn leaf_completeness_test() {
    let input = vec![
        "about.md".to_string(),
        "chapter1/file1.md".to_string(),
        "chapter1/subchap/file1.md".to_string(),
        "chapter2/README.md".to_string(),
        "chapter2/file2.md".to_string(),
    ];
    let book = Chapter::new("Summary".to_string(), &input);

    fn collect(node: &Chapter, out: &mut Vec<String>) {
        for f in &node.files {
            out.push(f.clone());
        }
        for c in &node.chapter {
            collect(c, out);
        }
    }
    let mut stored: Vec<String> = vec![];
    collect(&book, &mut stored);
    for p in &input {
        assert_eq!(1, stored.iter().filter(|s| s == &p).count());
    }
    assert_eq!(input.len(), stored.len());
}

// The first dialect uses `-` as its marker.
#[test]
fn md_dialect_marker_test() {
    let input = vec!["file1.md".to_string()];
    let book = Chapter::new("Summary".to_string(), &input);
    assert_eq!(
        "# Summary\n\n- [File1](file1.md)\n",
        book.get_summary_file(&Format::Md('-'), &None)
    );
}

// A chapter without an index file gets an unlinked anchor heading in the
// first dialect and a bare bullet in the second.
#[test]
fn headless_chapter_test() {
    let input = vec!["chapter1/file1.md".to_string()];
    let book = Chapter::new("Summary".to_string(), &input);
    assert_eq!(
        "# Summary\n\n- [Chapter1](#)\n    - [File1](chapter1/file1.md)\n",
        book.get_summary_file(&Format::Md('-'), &None)
    );
    assert_eq!(
        "# Summary\n\n* Chapter1\n    * [File1](chapter1/file1.md)\n",
        book.get_summary_file(&Format::Git('*'), &None)
    );
}

// Index-file detection is a case-insensitive suffix match.
#[test]
fn readme_case_insensitive_test() {
    let input = vec![
        "part1/ReadMe.md".to_string(),
        "part1/notes.md".to_string(),
    ];
    let book = Chapter::new("Summary".to_string(), &input);
    assert_eq!(
        "# Summary\n\n- [Part1](part1/ReadMe.md)\n    - [Notes](part1/notes.md)\n",
        book.get_summary_file(&Format::Md('-'), &None)
    );
}

// Child names are matched case-sensitively while building: `A` and `a` are
// two chapters.
#[test]
fn chapter_case_sensitive_test() {
    let input = vec!["A/x.md".to_string(), "a/y.md".to_string()];
    let book = Chapter::new("Summary".to_string(), &input);
    assert_eq!(2, book.chapter.len());
    assert_eq!("A", book.chapter[0].name);
    assert_eq!("a", book.chapter[1].name);
}

// An empty root still emits its heading line and blank line.
#[test]
fn empty_title_render_test() {
    let input: Vec<String> = vec![];
    let book = Chapter::new("".to_string(), &input);
    assert_eq!("# \n\n", book.get_summary_file(&Format::Md('-'), &None));
}

// A preferred name that matches a chapter more than once renders it once per
// mention; the second pass still skips it.
#[test]
fn preferred_duplicate_name_test() {
    let input = vec!["part1/file.md".to_string(), "part2/file.md".to_string()];
    let book = Chapter::new("Summary".to_string(), &input);
    let preferred = Some(vec!["part1".to_string(), "PART1".to_string()]);
    let expected = "# Summary\n\n\
        - [Part1](#)\n    - [File](part1/file.md)\n\
        - [Part1](#)\n    - [File](part1/file.md)\n\
        - [Part2](#)\n    - [File](part2/file.md)\n";
    assert_eq!(expected, book.get_summary_file(&Format::Md('-'), &preferred));
}

#[test]
fn format_from_str_test() {
    assert_eq!(Some(Format::Md('-')), Format::from_str("md"));
    assert_eq!(Some(Format::Git('*')), Format::from_str("git"));
    assert_eq!(None, Format::from_str("html"));
    assert_eq!(None, Format::from_str(""));
}

// The title transform strips ordering prefixes, maps underscores to spaces,
// and leaves an all-empty result alone.
#[test]
fn title_edge_cases_test() {
    assert_eq!("", make_title_case(""));
    assert_eq!("", make_title_case("123-_"));
    assert_eq!("File", make_title_case("02_file"));
}

// Stems: a name with no extension keeps its whole name; only the last dot
// starts the extension.
#[test]
fn stem_variants_test() {
    let input = vec!["notes".to_string(), "deep/dir/file_one.tar.md".to_string()];
    assert_eq!(
        "- [Notes](notes)\n- [File one.tar](deep/dir/file_one.tar.md)\n",
        print_files(&input, &'-', 0)
    );
}

// Indentation depth is four spaces per level.
#[test]
fn print_files_indent_test() {
    let input = vec!["x/file.md".to_string()];
    assert_eq!("        - [File](x/file.md)\n", print_files(&input, &'-', 2));
}

// The root's own index file is suppressed from the listing too.
#[test]
fn root_readme_suppressed_test() {
    let input = vec!["sub/README.md".to_string()];
    let book = Chapter::new("Summary".to_string(), &input);
    // `sub/README.md` is promoted to sub's heading, not listed again.
    assert_eq!(
        "# Summary\n\n- [Sub](sub/README.md)\n",
        book.get_summary_file(&Format::Md('-'), &None)
    );
}
