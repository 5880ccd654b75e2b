use html_outliner::dom::parse_document;
use html_outliner::outline::count_digit;
use html_outliner::text::normalize;
use html_outliner::{Heading, Outline, OutlineStructure, SectioningType};

const MAX_DEPTH: usize = 50;

fn outline_text(html: &str, max_depth: usize) -> String {
    Outline::parse_html(html, max_depth).to_text()
}

#[test]
fn nested_then_sibling_headings() {
    assert_eq!(outline_text("<h1>A</h1><h2>B</h2><h1>C</h1>", MAX_DEPTH), "1. A\n    1. B\n2. C");
}

#[test]
fn increasing_ranks_make_one_chain() {
    let html = "
<h1>Header Top</h1>
<h1>Header 1</h1>
<h2>Header 2</h2>
<h3>Header 3</h3>
<h4>Header 4</h4>
<h5>Header 5</h5>
<h6>Header 6</h6>
";
    assert_eq!(
        outline_text(html, MAX_DEPTH),
        "1. Header Top\n2. Header 1\n    1. Header 2\n        1. Header 3\n            1. Header 4\n                1. Header 5\n                    1. Header 6"
    );
}

#[test]
fn strictly_increasing_chain_from_first_heading() {
    assert_eq!(
        outline_text("<h1>A</h1><h2>B</h2><h3>C</h3>", MAX_DEPTH),
        "1. A\n    1. B\n        1. C"
    );
}

#[test]
fn equal_ranks_are_siblings() {
    assert_eq!(outline_text("<h2>A</h2><h2>B</h2><h2>C</h2>", MAX_DEPTH), "1. A\n2. B\n3. C");
}

#[test]
fn deeper_headings_after_a_heading_nest_under_it() {
    assert_eq!(
        outline_text("<h1>X</h1><h2>P</h2><h3>A</h3><h2>B</h2>", MAX_DEPTH),
        "1. X\n    1. P\n        1. A\n    2. B"
    );
}

#[test]
fn sectioning_root_is_not_entered() {
    assert_eq!(
        outline_text("<blockquote><h1>Quoted</h1><section><h2>In</h2></section></blockquote><h1>A</h1>", MAX_DEPTH),
        "1. A"
    );
    assert_eq!(outline_text("<figure><h1>F</h1></figure><details><h2>D</h2></details>", MAX_DEPTH), "");
}

#[test]
fn heading_group_is_one_title() {
    assert_eq!(
        outline_text("<hgroup><h1>Main</h1><h2>Sub</h2><h3>Third</h3></hgroup>", MAX_DEPTH),
        "1. Main \u{2014} Sub \u{2014} Third"
    );
}

#[test]
fn empty_heading_group_is_no_heading() {
    assert_eq!(outline_text("<hgroup><p>x</p></hgroup>", MAX_DEPTH), "");
}

#[test]
fn rendering_twice_gives_the_same_text() {
    let o = Outline::parse_html("<h1>A</h1><section><h2>B</h2></section>", MAX_DEPTH);
    assert_eq!(o.to_text(), o.to_text());
}

#[test]
fn untitled_sections() {
    assert_eq!(
        outline_text("<article><section></section></article>", MAX_DEPTH),
        "1. Untitled article\n    1. Untitled section"
    );
    assert_eq!(outline_text("<nav></nav><aside></aside>", MAX_DEPTH), "1. Untitled nav\n2. Untitled aside");
}

#[test]
fn depth_limit_zero_gives_empty_root() {
    let o = Outline::parse_html("<h1>A</h1><section><h2>B</h2></section>", 0);
    assert!(o.text.is_none());
    assert!(o.sub_outlines.is_empty());
    assert_eq!(o.to_text(), "");
}

#[test]
fn sections_with_headings() {
    let html = "<h1>Site</h1><nav><h2>Menu</h2></nav><article><h2>Post</h2><section><h3>Part</h3></section></article>";
    assert_eq!(
        outline_text(html, MAX_DEPTH),
        "1. Site\n    1. Menu\n    2. Post\n        1. Part"
    );
}

#[test]
fn whitespace_in_headings_is_collapsed() {
    assert_eq!(outline_text("<h1>\n   Hello\n   World\n</h1>", MAX_DEPTH), "1. Hello World");
    assert_eq!(outline_text("<h1>One\n\t\n two</h1>", MAX_DEPTH), "1. One two");
}

#[test]
fn ten_siblings_widen_the_indent() {
    let mut html = String::from("<h1>Top</h1>");
    for i in 0..10 {
        html.push_str(&format!("<h2>S{}</h2>", i));
    }
    let text = outline_text(&html, MAX_DEPTH);
    assert!(text.starts_with("1. Top\n     1. S0\n"));
    assert!(text.ends_with("\n     10. S9"));
}

#[test]
fn heading_levels() {
    let g = Heading::Group(vec![
        Heading::Header { level: 2, text: String::from("a") },
        Heading::Header { level: 4, text: String::from("b") },
    ]);
    assert_eq!(g.get_start_level(), 2);
    assert_eq!(g.get_end_level(), 4);
    assert_eq!(g.to_text(), "a \u{2014} b");
}

#[test]
fn sectioning_type_names() {
    assert_eq!(SectioningType::from_sectioning_content_tag("article"), Some(SectioningType::Article));
    assert_eq!(SectioningType::from_sectioning_content_tag("aside"), Some(SectioningType::Aside));
    assert_eq!(SectioningType::from_sectioning_content_tag("nav"), Some(SectioningType::Nav));
    assert_eq!(SectioningType::from_sectioning_content_tag("section"), Some(SectioningType::Section));
    assert_eq!(SectioningType::from_sectioning_content_tag("div"), None);
    assert_eq!(SectioningType::from_sectioning_content_tag("Section"), None);
    assert_eq!(SectioningType::Article.as_str(), "article");
    assert_eq!(SectioningType::Body.as_str(), "body");
    assert!(SectioningType::Nav.is_sectioning_content_type());
    assert!(!SectioningType::Root.is_sectioning_content_type());
    assert!(SectioningType::Heading.is_heading());
}

#[test]
fn digit_counts() {
    assert_eq!(count_digit(0), 1);
    assert_eq!(count_digit(9), 1);
    assert_eq!(count_digit(10), 2);
    assert_eq!(count_digit(12345), 5);
}

#[test]
fn structure_of_a_document() {
    let os = OutlineStructure::parse_html("<h1>A</h1><h2>B</h2><section></section>", MAX_DEPTH);
    assert_eq!(os.sectioning_type, SectioningType::Body);
    assert!(matches!(os.heading, Some(Heading::Header { level: 1, .. })));
    assert_eq!(os.sub_outline_structures.len(), 2);
    assert_eq!(os.sub_outline_structures[0].sectioning_type, SectioningType::Heading);
    assert_eq!(os.sub_outline_structures[1].sectioning_type, SectioningType::Section);
}

#[test]
fn outline_from_a_built_tree() {
    let node = parse_document("<section><h1>T</h1></section>");
    let o = Outline::from_document(&node, MAX_DEPTH);
    assert_eq!(o.to_text(), "1. T");
}

#[test]
fn later_shallower_heading_stays_under_the_scope_title() {
    assert_eq!(outline_text("<h3>A</h3><h1>B</h1>", MAX_DEPTH), "1. A\n    1. B");
}

#[test]
fn text_nodes_are_normalized() {
    assert_eq!(normalize("a\n \n b"), "a b");
    assert_eq!(normalize("  x  "), "x");
    assert_eq!(normalize("\n\t lead"), "lead");
    assert_eq!(normalize("tab\there"), "tab\there");
}

#[test]
fn heading_nested_inline_text() {
    assert_eq!(outline_text("<h2>Hello <em>big</em> world</h2>", MAX_DEPTH), "1. Hellobigworld");
}

#[test]
fn document_without_headings() {
    assert_eq!(outline_text("<p>text only</p>", MAX_DEPTH), "");
    assert_eq!(outline_text("", MAX_DEPTH), "");
}

#[test]
fn heading_from_a_container_stays_the_first() {
    assert_eq!(outline_text("<div><h1>A</h1></div><h1>B</h1>", MAX_DEPTH), "1. A\n2. B");
}

#[test]
fn deeper_headings_keep_their_outlines_past_an_untitled_section() {
    assert_eq!(
        outline_text("<h1>B</h1><section></section><h3>C</h3><h2>D</h2>", MAX_DEPTH),
        "1. B\n    1. C\n    2. D\n2. Untitled section"
    );
}

#[test]
fn normalizer_pairs_levels_with_their_outlines() {
    let leaf = |level: u8, text: &str| OutlineStructure {
        sectioning_type: SectioningType::Heading,
        heading: Some(Heading::Header { level, text: String::from(text) }),
        sub_outline_structures: Vec::new(),
    };
    let os = OutlineStructure {
        sectioning_type: SectioningType::Body,
        heading: None,
        sub_outline_structures: vec![
            leaf(1, "B"),
            OutlineStructure::new(SectioningType::Section),
            leaf(3, "C"),
            leaf(2, "D"),
        ],
    };
    let o = Outline::from_structure(os);
    assert_eq!(o.sub_outlines.len(), 2);
    assert_eq!(o.sub_outlines[0].text.as_deref(), Some("B"));
    assert_eq!(o.sub_outlines[0].sub_outlines.len(), 2);
    assert_eq!(o.sub_outlines[0].sub_outlines[0].text.as_deref(), Some("C"));
    assert_eq!(o.sub_outlines[0].sub_outlines[1].text.as_deref(), Some("D"));
    assert_eq!(o.sub_outlines[1].text.as_deref(), Some("Untitled section"));
}

#[test]
fn first_line_has_no_line_break() {
    let o = Outline {
        text: None,
        sub_outlines: vec![
            Outline { text: None, sub_outlines: vec![] },
            Outline { text: Some(String::from("A")), sub_outlines: vec![] },
        ],
    };
    assert_eq!(o.to_text(), "2. A");
}

#[test]
fn untitled_siblings_start_new_lines() {
    assert_eq!(
        outline_text("<section><h1>A</h1><h2>B</h2></section><section><h1>C</h1><h2>D</h2></section>", MAX_DEPTH),
        "1. A\n    1. B\n1. C\n    1. D"
    );
}
