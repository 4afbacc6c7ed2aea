use indexer::markup::{extract_text, get_text_from_markdown_tree, replace_breaks, Markup};

#[test]
fn text_of_a_tree_by_hand() {
    let tree = Markup::Parent(vec![
        Markup::Text("a".to_string()),
        Markup::Other,
        Markup::Parent(vec![Markup::InlineCode("b".to_string()), Markup::Parent(vec![])]),
        Markup::Code("c\nd".to_string()),
    ]);
    let mut buffer = "x:".to_string();
    get_text_from_markdown_tree(&tree, &mut buffer);
    assert_eq!(buffer, "x:abc\nd");
}

#[test]
fn text_of_a_leaf() {
    let mut buffer = String::new();
    get_text_from_markdown_tree(&Markup::Other, &mut buffer);
    assert_eq!(buffer, "");
    get_text_from_markdown_tree(&Markup::Text("t".to_string()), &mut buffer);
    get_text_from_markdown_tree(&Markup::InlineCode("i".to_string()), &mut buffer);
    get_text_from_markdown_tree(&Markup::Code("c".to_string()), &mut buffer);
    assert_eq!(buffer, "tic");
}

#[test]
fn text_of_a_heading_with_emphasis() {
    assert_eq!(extract_text("# Hi *Earth*!"), Ok("Hi Earth!".to_string()));
}

#[test]
fn text_of_code() {
    assert_eq!(extract_text("use `x+1` here"), Ok("use x+1 here".to_string()));
    assert_eq!(extract_text("```\nlet a = 1;\n```"), Ok("let a = 1;".to_string()));
}

#[test]
fn text_of_paragraphs_runs_together() {
    assert_eq!(extract_text("one\n\ntwo"), Ok("onetwo".to_string()));
}

#[test]
fn text_of_nothing() {
    assert_eq!(extract_text(""), Ok(String::new()));
}

#[test]
fn breaks_become_blanks() {
    assert_eq!(replace_breaks("a<br>b"), "a b");
    assert_eq!(replace_breaks("<br><br>x<br>"), "  x ");
    assert_eq!(replace_breaks("<br"), "<br");
    assert_eq!(replace_breaks("<<br>>"), "< >");
    assert_eq!(replace_breaks("<b<br>r>"), "<b r>");
    assert_eq!(replace_breaks("<BR> <br/> ü<br>ß"), "<BR> <br/> ü ß");
    assert_eq!(replace_breaks(""), "");
}

#[test]
fn breaks_are_replaced_as_the_standard_library_does() {
    for text in ["", "<br>", "x<br", "<b<br>", "<br<br>>", "<<br><br>br>", "ab<br>cd<br>", "日本<br>語"] {
        assert_eq!(replace_breaks(text), text.replace("<br>", " "));
    }
}
