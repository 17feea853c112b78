use mdinclude::engine::{replace_all, Diag};
use mdinclude::parse::{parse_md_include_path, parse_range_or_anchor, LineRange, LinkType, RangeOrAnchor};
use mdinclude::rewrite::update_relative_links;
use mdinclude::scan::{find_links, Link};
use mdinclude::store::FileStore;
use mdinclude::MdInclude;

#[test]
fn test_replace_all_escaped() {
    let start = r"
        Some text over here.
        ```hbs
        \{{#mdinclude 0:file.rs}} << an escaped link!
        ```";
    let end = r"
        Some text over here.
        ```hbs
        {{#mdinclude 0:file.rs}} << an escaped link!
        ```";
    let files = FileStore::new();
    let r = replace_all(start.as_bytes(), b"", b"", 0, &files);
    assert_eq!(r.text, end.as_bytes().to_vec());
}

#[test]
fn test_find_links_no_link() {
    let s = "Some random text without link...";
    assert!(find_links(s.as_bytes()) == vec![]);
}

#[test]
fn test_find_links_partial_link() {
    let s = "Some random text with {{#playground...";
    assert!(find_links(s.as_bytes()) == vec![]);
    let s = "Some random text with {{#include...";
    assert!(find_links(s.as_bytes()) == vec![]);
    let s = "Some random text with \\{{#include...";
    assert!(find_links(s.as_bytes()) == vec![]);
}

#[test]
fn test_find_links_empty_link() {
    let s = "Some random text with {{#playground}} and {{#playground   }} {{}} {{#}}...";
    assert!(find_links(s.as_bytes()) == vec![]);
}

#[test]
fn test_find_links_unknown_link_type() {
    let s = "Some random text with {{#playgroundz ar.rs}} and {{#incn}} {{baz}} {{#bar}}...";
    assert!(find_links(s.as_bytes()) == vec![]);
}

#[test]
fn test_find_links_escaped_link() {
    let s = "Some random text with escaped playground \\{{#playground file.rs editable}} ...";

    let res = find_links(s.as_bytes());
    println!("\nOUTPUT: {:?}\n", res);

    assert_eq!(
        res,
        vec![Link {
            start_index: 41,
            end_index: 74,
            link_type: LinkType::Escaped,
            link_text: b"\\{{#playground file.rs editable}}".to_vec(),
        }]
    );
}

#[test]
fn update_relative_links_works() {
    let inputs_and_outputs = [
        (
            "My image here: ![my image](./.hidden/subfolder/image/image.png), and it is really cool!",
            "My image here: ![my image](with/subfolder/.hidden/subfolder/image/image.png), and it is really cool!"
        ),
        (
            "My image here: [my link](./.hidden/subfolder/tests/test.rs), and it is really cool!",
            "My image here: [my link](with/subfolder/.hidden/subfolder/tests/test.rs), and it is really cool!"
        ),
    ];
    let path = "/long/concrete/path/to/project/";
    let relative_path = "/long/concrete/path/to/project/with/subfolder/";

    for (input, output) in inputs_and_outputs.into_iter() {
        let final_content =
            update_relative_links(input.as_bytes(), path.as_bytes(), relative_path.as_bytes());

        assert_eq!(final_content, output.as_bytes().to_vec())
    }
}

#[test]
fn update_relative_links_skips_random_links() {
    let content = "My image here: `./.hidden/subfolder/image/image.png`, and it is really cool!";
    let path = "/long/concrete/path/to/project/";
    let relative_path = "/long/concrete/path/to/project/with/subfolder/";

    let final_content =
        update_relative_links(content.as_bytes(), path.as_bytes(), relative_path.as_bytes());

    // Unchanged
    assert_eq!(final_content, content.as_bytes().to_vec())
}

#[test]
fn selector_single_line() {
    let r = parse_range_or_anchor(Some(b"5"));
    assert_eq!(r, RangeOrAnchor::Range(LineRange::Range(4, 5)));
}

#[test]
fn selector_bounded_range() {
    let r = parse_range_or_anchor(Some(b"3:7"));
    assert_eq!(r, RangeOrAnchor::Range(LineRange::Range(2, 7)));
}

#[test]
fn selector_open_end() {
    let r = parse_range_or_anchor(Some(b"3:"));
    assert_eq!(r, RangeOrAnchor::Range(LineRange::RangeFrom(2)));
}

#[test]
fn selector_open_start() {
    let r = parse_range_or_anchor(Some(b":7"));
    assert_eq!(r, RangeOrAnchor::Range(LineRange::RangeTo(7)));
}

#[test]
fn selector_full_file() {
    assert_eq!(
        parse_range_or_anchor(Some(b"")),
        RangeOrAnchor::Range(LineRange::RangeFull)
    );
    assert_eq!(
        parse_range_or_anchor(None),
        RangeOrAnchor::Range(LineRange::RangeFull)
    );
    assert_eq!(
        parse_range_or_anchor(Some(b":")),
        RangeOrAnchor::Range(LineRange::RangeFull)
    );
}

#[test]
fn selector_anchor_name() {
    let r = parse_range_or_anchor(Some(b"intro"));
    assert_eq!(r, RangeOrAnchor::Anchor(b"intro".to_vec()));
}

#[test]
fn selector_overlong_number_is_anchor() {
    let r = parse_range_or_anchor(Some(b"99999999999999999999999"));
    assert_eq!(r, RangeOrAnchor::Anchor(b"99999999999999999999999".to_vec()));
}

#[test]
fn path_token_splits_on_first_colon() {
    let lt = parse_md_include_path(b"a.md:3:7");
    assert_eq!(
        lt,
        LinkType::Inclusion(
            b"a.md".to_vec(),
            RangeOrAnchor::Range(LineRange::Range(2, 7))
        )
    );
}

#[test]
fn rewriting_prefixes_relative_references() {
    let out = update_relative_links(b"![x](./img.png)", b"/a/b/", b"/a/b/c/d/");
    assert_eq!(out, b"![x](c/d/img.png)".to_vec());
}

#[test]
fn rewriting_leaves_foreign_parents_alone() {
    let out = update_relative_links(b"![x](./img.png)", b"/a/b/", b"/elsewhere/");
    assert_eq!(out, b"![x](./img.png)".to_vec());
}

#[test]
fn rewriting_skips_absolute_and_bare_targets() {
    let content = b"[a](/abs/p.md) [b](x/y.md) ![c](img.png)";
    let out = update_relative_links(content, b"/a/b/", b"/a/b/c/");
    assert_eq!(out, content.to_vec());
}

#[test]
fn escaped_round_trip_reads_no_file() {
    let files = FileStore::new();
    let r = replace_all(b"\\{{#mdinclude X}}", b"", b"doc.md", 0, &files);
    assert_eq!(r.text, b"{{#mdinclude X}}".to_vec());
    assert!(r.diags.is_empty());
    assert!(r.missing.is_empty());
}

#[test]
fn unknown_directives_pass_through() {
    let files = FileStore::new();
    let s = b"a {{#playgroundz ar.rs}} b {{#mdinclude   }} c";
    let r = replace_all(s, b"", b"doc.md", 0, &files);
    assert_eq!(r.text, s.to_vec());
    assert!(r.diags.is_empty());
    assert!(r.missing.is_empty());
}

#[test]
fn missing_file_is_asked_for_then_expanded() {
    let mut files = FileStore::new();
    let s = b"pre {{#mdinclude f.md}} post";
    let first = replace_all(s, b"", b"doc.md", 0, &files);
    assert_eq!(first.missing, vec![b"f.md".to_vec()]);
    files.insert(b"f.md".to_vec(), Some(b"hello".to_vec()));
    let second = replace_all(s, b"", b"doc.md", 0, &files);
    assert_eq!(second.text, b"pre hello post".to_vec());
    assert!(second.missing.is_empty());
    assert!(second.diags.is_empty());
}

#[test]
fn unreadable_file_keeps_directive_text() {
    let mut files = FileStore::new();
    files.insert(b"gone.md".to_vec(), None);
    let s = b"pre {{#mdinclude gone.md}} post";
    let r = replace_all(s, b"", b"doc.md", 0, &files);
    assert_eq!(r.text, s.to_vec());
    assert_eq!(
        r.diags,
        vec![Diag::Unreadable {
            link_text: b"{{#mdinclude gone.md}}".to_vec(),
            target: b"gone.md".to_vec(),
            source: b"doc.md".to_vec(),
        }]
    );
}

#[test]
fn cyclic_inclusion_terminates_with_diagnostic() {
    let mut files = FileStore::new();
    files.insert(
        b"self.md".to_vec(),
        Some(b"{{#mdinclude self.md}}".to_vec()),
    );
    let r = replace_all(b"{{#mdinclude self.md}}", b"", b"doc.md", 0, &files);
    assert_eq!(r.text, b"".to_vec());
    assert_eq!(
        r.diags,
        vec![Diag::DepthExceeded {
            source: b"doc.md".to_vec(),
        }]
    );
    assert!(r.missing.is_empty());
}

#[test]
fn nested_inclusion_updates_sibling_link() {
    let mut files = FileStore::new();
    files.insert(
        b"sub/README.md".to_vec(),
        Some(b"[Doc](./guide.md)".to_vec()),
    );
    let r = replace_all(b"{{#mdinclude sub/README.md}}", b"", b"doc.md", 0, &files);
    assert_eq!(r.text, b"[Doc](sub/guide.md)".to_vec());
    assert!(r.diags.is_empty());
}

#[test]
fn line_range_selection_takes_those_lines() {
    let mut files = FileStore::new();
    files.insert(b"f.md".to_vec(), Some(b"l1\nl2\nl3\nl4".to_vec()));
    let r = replace_all(b"{{#mdinclude f.md:2}}", b"", b"doc.md", 0, &files);
    assert_eq!(r.text, b"l2".to_vec());
    let r = replace_all(b"{{#mdinclude f.md:2:4}}", b"", b"doc.md", 0, &files);
    assert_eq!(r.text, b"l2\nl3\nl4".to_vec());
    let r = replace_all(b"{{#mdinclude f.md:3:}}", b"", b"doc.md", 0, &files);
    assert_eq!(r.text, b"l3\nl4".to_vec());
    let r = replace_all(b"{{#mdinclude f.md::2}}", b"", b"doc.md", 0, &files);
    assert_eq!(r.text, b"l1\nl2".to_vec());
}

#[test]
fn anchor_selection_takes_the_anchored_region() {
    let mut files = FileStore::new();
    files.insert(
        b"f.md".to_vec(),
        Some(b"top\n// ANCHOR: intro\nhello\n// ANCHOR_END: intro\nbottom".to_vec()),
    );
    let r = replace_all(b"{{#mdinclude f.md:intro}}", b"", b"doc.md", 0, &files);
    assert_eq!(r.text, b"hello".to_vec());
}

#[test]
fn supports_renderer_rejects_only_the_sentinel() {
    assert!(MdInclude::supports_renderer(b"html"));
    assert!(MdInclude::supports_renderer(b""));
    assert!(!MdInclude::supports_renderer(b"not-supported"));
}
