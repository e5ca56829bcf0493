use mdsummary::book::make_title_case;
use mdsummary::book::print_files;
use mdsummary::book::Chapter;
use mdsummary::book::Format;

const TITLE: &str = "Summary";
const FORMAT: Format = Format::Git('*');

#[test]
fn titlecase_test() {
    assert_eq!("Chapter 1", make_title_case("1-chapter_1"));
    assert_eq!("Chapter 23", make_title_case("chapter_23"));
}

#[test]
fn file_print_test() {
    let expected = r#"- [WritingIsGood](part1/WritingIsGood.md)
- [GitbookIsNice](part1/GitbookIsNice.md)
"#;
    let input = vec![
        "part1/README.md".to_string(),
        "part1/WritingIsGood.md".to_string(),
        "part1/GitbookIsNice.md".to_string(),
    ];
    assert_eq!(expected, print_files(&input, &'-', 0));
}

#[test]
fn create_struct_empty_test() {
    // # empty list

    let input: Vec<String> = vec![];
    let expected: Chapter = Chapter {
        name: TITLE.to_string(),
        files: vec![],
        chapter: vec![],
    };

    let book = Chapter::new(TITLE.to_string(), &input);

    assert_eq!(expected, book);
}

#[test]
fn create_struct_onefile_test() {
    // # only one file
    let input: Vec<String> = vec!["file.md".to_string()];
    let expected: Chapter = Chapter {
        name: TITLE.to_string(),
        files: vec!["file.md".to_string()],
        chapter: vec![],
    };

    let book = Chapter::new(TITLE.to_string(), &input);

    assert_eq!(expected, book);
}

#[test]
fn create_struct_onechapter_test() {
    // # only one chapter
    let input: Vec<String> = vec!["chapter1/file1.md".to_string()];

    let expected: Chapter = Chapter {
        name: TITLE.to_string(),
        files: vec![],
        chapter: vec![Chapter {
            name: "chapter1".to_string(),
            files: vec!["chapter1/file1.md".to_string()],
            chapter: vec![],
        }],
    };

    let book = Chapter::new(TITLE.to_string(), &input);

    assert_eq!(expected, book);
}

#[test]
fn create_struct_subchapter_test() {
    // # chapter with subchapters
    let input: Vec<String> = vec![
        "chapter1/file1.md".to_string(),
        "chapter1/subchap/file1.md".to_string(),
    ];

    let expected: Chapter = Chapter {
        name: TITLE.to_string(),
        files: vec![],
        chapter: vec![Chapter {
            name: "chapter1".to_string(),
            files: vec!["chapter1/file1.md".to_string()],
            chapter: vec![Chapter {
                name: "subchap".to_string(),
                files: vec!["chapter1/subchap/file1.md".to_string()],
                chapter: vec![],
            }],
        }],
    };

    let book = Chapter::new(TITLE.to_string(), &input);

    assert_eq!(expected, book);
}

// 2. Markdown output for entry in chapter
//      - format (md/git)
//      - titlecase for entry
//      - remove pre numbers in entry
#[test]
fn md_output_onefile_test() {
    let list_char: char = match FORMAT {
        Format::Md(c) => c,
        Format::Git(c) => c,
    };

    // only one file
    let input: Vec<String> = vec!["file1.md".to_string()];

    let expected: &str = &format!("# {}\n\n{} [File1](file1.md)\n", TITLE, list_char);

    let book = Chapter::new(TITLE.to_string(), &input);

    assert_eq!(expected, book.get_summary_file(&FORMAT, &None));
}

#[test]
fn md_output_onechapter_test() {
    let list_char: char = match FORMAT {
        Format::Md(c) => c,
        Format::Git(c) => c,
    };

    // only one file
    let input: Vec<String> = vec!["file1.md".to_string(), "chapter1/file1.md".to_string()];

    let expected: &str = &format!(
        "# {0}\n\n{1} [File1](file1.md)\n{1} Chapter1\n    {1} [File1](chapter1/file1.md)\n",
        TITLE, list_char
    );

    let book = Chapter::new(TITLE.to_string(), &input);

    assert_eq!(expected, book.get_summary_file(&FORMAT, &None));
}

#[test]
fn md_output_subchapter_test() {
    let list_char: char = match FORMAT {
        Format::Md(c) => c,
        Format::Git(c) => c,
    };

    // only one file
    let input: Vec<String> = vec![
        "chapter1/file1.md".to_string(),
        "chapter1/subchap/file1.md".to_string(),
    ];

    let expected: &str = &format!(
        "# {0}\n\n{1} Chapter1\n    {1} [File1](chapter1/file1.md)\n    {1} Subchap\n        {1} [File1](chapter1/subchap/file1.md)\n",
        TITLE, list_char
    );

    let book = Chapter::new(TITLE.to_string(), &input);

    assert_eq!(expected, book.get_summary_file(&FORMAT, &None));
}

#[test]
fn md_simple_structure_test() {
    let input = vec![
        "part1/README.md".to_string(),
        "part1/WritingIsGood.md".to_string(),
        "part1/GitbookIsNice.md".to_string(),
        "part2/README.md".to_string(),
        "part2/First_part_of_part_2.md".to_string(),
        "part2/Second_part_of_part_2.md".to_string(),
    ];

    let expected = r#"# Summary

* [Part1](part1/README.md)
    * [WritingIsGood](part1/WritingIsGood.md)
    * [GitbookIsNice](part1/GitbookIsNice.md)
* [Part2](part2/README.md)
    * [First Part of Part 2](part2/First_part_of_part_2.md)
    * [Second Part of Part 2](part2/Second_part_of_part_2.md)
"#;

    let book = Chapter::new(TITLE.to_string(), &input);

    assert_eq!(expected, book.get_summary_file(&FORMAT, &None));
}

#[test]
fn sort_chapter_test() {
    let input = vec![
        "part1/README.md".to_string(),
        "part1/WritingIsGood.md".to_string(),
        "part2/GitbookIsNice.md".to_string(),
        "part2/README.md".to_string(),
        "part3/file.md".to_string(),
        "part4/file.md".to_string(),
    ];

    let expected = r#"# Summary

* Part4
    * [File](part4/file.md)
* Part3
    * [File](part3/file.md)
* [Part1](part1/README.md)
    * [WritingIsGood](part1/WritingIsGood.md)
* [Part2](part2/README.md)
    * [GitbookIsNice](part2/GitbookIsNice.md)
"#;

    let book = Chapter::new(TITLE.to_string(), &input);

    assert_eq!(
        expected,
        book.get_summary_file(
            &FORMAT,
            &Some(vec![
                "PART4".to_string(),
                "part5".to_string(),
                "part3".to_string()
            ])
        )
    );
}
