//! Plain text out of a markdown document.
//!
//! The parser is an outside one. Its syntax tree is copied into a tree of
//! the library that keeps what the extraction reads: the text of text and
//! code nodes, and the children of the others.

use vstd::prelude::*;
use vstd::string::StringExecFns;
use crate::searcher::ExtractionError;

verus! {

/// A node of a markdown syntax tree, as far as text extraction goes.
#[derive(Debug)]
pub enum Markup {
    /// Running text.
    Text(String),
    /// Code within a line.
    InlineCode(String),
    /// A block of code.
    Code(String),
    /// A node with children, such as a paragraph or a heading.
    Parent(Vec<Markup>),
    /// Any other node: it brings no text.
    Other,
}

/// The text of a tree: that of its text and code nodes, from left to right.
pub open spec fn text_of(tree: Markup) -> Seq<char>
    decreases tree, 0nat,
{
    match tree {
        Markup::Text(value) => value@,
        Markup::InlineCode(value) => value@,
        Markup::Code(value) => value@,
        Markup::Parent(children) => text_of_first(children, children.len() as nat),
        Markup::Other => Seq::empty(),
    }
}

/// The text of the first `n` of `children`, one after the other.
pub open spec fn text_of_first(children: Vec<Markup>, n: nat) -> Seq<char>
    decreases children, n,
{
    if 0 < n <= children.len() {
        text_of_first(children, (n - 1) as nat) + text_of(children[n - 1])
    } else {
        Seq::empty()
    }
}

/// The syntax tree of the outside parser.
#[verifier::external_type_specification]
#[verifier::external_body]
pub struct ExNode(markdown::mdast::Node);

/// The error of the outside parser.
#[verifier::external_type_specification]
#[verifier::external_body]
pub struct ExMessage(markdown::message::Message);

/// The tree that the outside parser reads from a markdown text, copied as
/// far as text extraction goes, if it reads one.
pub uninterp spec fn markdown_tree(contents: Seq<char>) -> Option<Markup>;

/// `markdown::to_mdast` with the default options, and the copy of its
/// syntax tree. What it returns depends on the text alone: the tree that
/// `markdown_tree` names, or the parser's error where that names none.
#[verifier::external_body]
fn parse(contents: &str) -> (parsed: Result<Markup, markdown::message::Message>)
    ensures
        match parsed {
            Ok(tree) => markdown_tree(contents@) == Some(tree),
            Err(_) => markdown_tree(contents@) is None,
        },
{
    markdown::to_mdast(contents, &markdown::ParseOptions::default()).map(|node| markup_of(&node))
}

/// Copies a syntax tree of the outside parser: the value of a text, inline
/// code or code node, the children of a node for which `Node::children`
/// gives some, nothing of any other. Nothing is claimed of the copy.
#[verifier::external_body]
fn markup_of(node: &markdown::mdast::Node) -> (tree: Markup) {
    match node {
        markdown::mdast::Node::Text(text) => Markup::Text(text.value.clone()),
        markdown::mdast::Node::InlineCode(code) => Markup::InlineCode(code.value.clone()),
        markdown::mdast::Node::Code(code) => Markup::Code(code.value.clone()),
        _ => match node.children() {
            Some(children) => Markup::Parent(children.iter().map(markup_of).collect()),
            None => Markup::Other,
        },
    }
}

/// Appends the text of a tree to `text_buffer`.
pub fn get_text_from_markdown_tree(node: &Markup, text_buffer: &mut String)
    ensures
        final(text_buffer)@ == old(text_buffer)@ + text_of(*node),
    decreases node,
{
    match node {
        Markup::Text(value) => {
            text_buffer.append(value.as_str());
        },
        Markup::InlineCode(value) => {
            text_buffer.append(value.as_str());
        },
        Markup::Code(value) => {
            text_buffer.append(value.as_str());
        },
        Markup::Parent(children) => {
            let mut i: usize = 0;
            assert(old(text_buffer)@ + Seq::<char>::empty() =~= old(text_buffer)@);
            while i < children.len()
                invariant
                    i <= children.len(),
                    node == Markup::Parent(*children),
                    text_buffer@ == old(text_buffer)@ + text_of_first(*children, i as nat),
                decreases children.len() - i,
            {
                proof {
                    vstd::std_specs::vec::axiom_vec_index_decreases(*children, i as int);
                    assert(decreases_to!(*node => node->Parent_0));
                }
                get_text_from_markdown_tree(&children[i], text_buffer);
                assert(text_buffer@ =~= old(text_buffer)@ + text_of_first(*children, (i + 1) as nat));
                i += 1;
            }
        },
        Markup::Other => {
            assert(old(text_buffer)@ + Seq::<char>::empty() =~= old(text_buffer)@);
        },
    }
}

/// Whether a text starts with the line break tag `<br>`.
pub open spec fn starts_with_break(text: Seq<char>) -> bool {
    text.len() >= 4 && text[0] == '<' && text[1] == 'b' && text[2] == 'r' && text[3] == '>'
}

/// A text with a blank in the place of every line break tag, the tags
/// taken from left to right.
pub open spec fn without_breaks(text: Seq<char>) -> Seq<char>
    decreases text.len(),
{
    if text.len() == 0 {
        Seq::empty()
    } else if starts_with_break(text) {
        seq![' '] + without_breaks(text.skip(4))
    } else {
        seq![text[0]] + without_breaks(text.skip(1))
    }
}

/// Puts a blank in the place of every line break tag of a markdown text,
/// so that the words on both sides stay apart.
pub fn replace_breaks(contents: &str) -> (text: String)
    ensures
        text@ == without_breaks(contents@),
{
    let mut chars: Vec<char> = Vec::new();
    for c in it: contents.chars()
        invariant
            it.seq() == contents@,
            chars@ == contents@.take(it.index() as int),
    {
        chars.push(c);
        assert(contents@.take(it.index() + 1) =~= contents@.take(it.index() as int).push(c));
    }
    assert(chars@ =~= contents@);
    let ghost all = chars@;
    let mut text = String::new();
    let mut i: usize = 0;
    assert(all.skip(0) =~= all);
    assert(text@ + without_breaks(all) =~= without_breaks(all));
    while i < chars.len()
        invariant
            i <= chars.len(),
            all == chars@,
            text@ + without_breaks(all.skip(i as int)) == without_breaks(all),
        decreases chars.len() - i,
    {
        let ghost rest = all.skip(i as int);
        let ghost before = text@;
        if chars.len() - i >= 4 && chars[i] == '<' && chars[i + 1] == 'b' && chars[i + 2] == 'r'
            && chars[i + 3] == '>' {
            text.push(' ');
            proof {
                assert(starts_with_break(rest));
                assert(rest.skip(4) =~= all.skip(i + 4));
                assert(before.push(' ') + without_breaks(all.skip(i + 4)) =~= before + (seq![' ']
                    + without_breaks(all.skip(i + 4))));
            }
            i += 4;
        } else {
            text.push(chars[i]);
            proof {
                assert(!starts_with_break(rest));
                assert(rest.skip(1) =~= all.skip(i + 1));
                assert(before.push(rest[0]) + without_breaks(all.skip(i + 1)) =~= before + (
                seq![rest[0]] + without_breaks(all.skip(i + 1))));
            }
            i += 1;
        }
    }
    assert(all.skip(i as int) =~= Seq::<char>::empty());
    assert(text@ + Seq::<char>::empty() =~= text@);
    text
}

/// The plain text of a markdown document: the text of its syntax tree, or
/// an error where the parser finds none.
pub fn extract_text(contents: &str) -> (text: Result<String, ExtractionError>)
    ensures
        match markdown_tree(contents@) {
            Some(tree) => text matches Ok(t) && t@ == text_of(tree),
            None => text == Err::<String, ExtractionError>(ExtractionError::Unparsable),
        },
{
    match parse(contents) {
        Ok(tree) => {
            let mut text = String::new();
            get_text_from_markdown_tree(&tree, &mut text);
            assert(Seq::<char>::empty() + text_of(tree) =~= text_of(tree));
            Ok(text)
        },
        Err(_) => Err(ExtractionError::Unparsable),
    }
}

} // verus!
