use super::kind::SyntaxKind;
use super::tree::{SyntaxElement, SyntaxNode, SyntaxToken};
use crate::text::{decimal, push_decimal, TextRange};
use vstd::prelude::*;
use vstd::string::StringSliceAdditionalSpecFns;
use vstd::utf8::{decode_utf8, encode_utf8, is_char_boundary};

verus! {

/// What `{:?}` shows of a text: the text between double quotes, with the
/// characters that need it escaped.
pub uninterp spec fn str_debug(text: Seq<char>) -> Seq<char>;

/// `format!("{:?}", text)`: the text as `Debug` shows it.
#[verifier::external_body]
fn debug_str(text: &str) -> (shown: String)
    ensures
        shown@ == str_debug(text@),
{
    format!("{:?}", text)
}

/// The longest text of a token that a dump shows whole, in bytes, and one
/// more.
pub const SHOWN_WHOLE: usize = 25;

/// Where the text of a long token is cut: at the first byte from the 21st
/// to the 24th that starts a character.
pub open spec fn cut_at(bytes: Seq<u8>) -> int {
    if is_char_boundary(bytes, 21) {
        21
    } else if is_char_boundary(bytes, 22) {
        22
    } else if is_char_boundary(bytes, 23) {
        23
    } else if is_char_boundary(bytes, 24) {
        24
    } else {
        bytes.len() as int
    }
}

/// The text of a token as a dump shows it: a text of fewer than 25 bytes
/// whole, a longer one cut and followed by ` ...`, all as `{:?}` shows it.
pub open spec fn shown_text(text: Seq<char>) -> Seq<char> {
    let bytes = encode_utf8(text);
    if bytes.len() < SHOWN_WHOLE {
        str_debug(text)
    } else {
        str_debug(decode_utf8(bytes.subrange(0, cut_at(bytes))) + " ..."@)
    }
}

/// The kind and the range of a node or token, as a dump shows them.
pub open spec fn header(kind: SyntaxKind, range: TextRange) -> Seq<char> {
    kind.name_spec() + "@"@ + decimal(range.start as nat) + ".."@ + decimal(range.end as nat)
}

/// What separates a line from the one before it: nothing before the first
/// line.
pub open spec fn line_start(first: bool) -> Seq<char> {
    if first {
        Seq::empty()
    } else {
        "\n"@
    }
}

/// The line of a token in a dump.
pub open spec fn dump_token(token: SyntaxToken, indent: Seq<char>) -> Seq<char> {
    "\n"@ + indent + header(token.kind, token.range) + " "@ + shown_text(token.text@)
}

/// The lines of a node in a dump: the node itself, then its children, each
/// two spaces further in.
pub open spec fn dump_node(node: SyntaxNode, indent: Seq<char>, first: bool) -> Seq<char>
    decreases node, 0int,
{
    line_start(first) + indent + header(node.kind, node.range) + dump_elements(
        node.children@,
        node.children@.len() as int,
        indent + "  "@,
    )
}

/// The lines of the first `n` of `elements` in a dump.
pub open spec fn dump_elements(elements: Seq<SyntaxElement>, n: int, indent: Seq<char>) -> Seq<
    char,
>
    decreases elements, n,
{
    if 0 < n <= elements.len() {
        dump_elements(elements, n - 1, indent) + match elements[n - 1] {
            SyntaxElement::Node(child) => dump_node(child, indent, false),
            SyntaxElement::Token(token) => dump_token(token, indent),
        }
    } else {
        Seq::empty()
    }
}

/// The dump of a tree: one line for each node and token, a node before its
/// children.
pub open spec fn dump(node: SyntaxNode) -> Seq<char> {
    dump_node(node, Seq::empty(), true)
}

fn push_header(out: &mut String, kind: SyntaxKind, range: TextRange)
    ensures
        final(out)@ == old(out)@ + header(kind, range),
{
    out.append(kind.name());
    out.append("@");
    push_decimal(out, range.start as u64);
    out.append("..");
    push_decimal(out, range.end as u64);
    assert(out@ =~= old(out)@ + header(kind, range));
}

fn push_text(out: &mut String, text: &str)
    ensures
        final(out)@ == old(out)@ + shown_text(text@),
{
    let size = text.as_bytes().len();
    let shown = if size < SHOWN_WHOLE {
        debug_str(text)
    } else {
        proof {
            vstd::utf8::encode_utf8_valid_utf8(text@);
            vstd::utf8::is_char_boundary_start_end_of_seq(text.spec_bytes());
        }
        let b21 = text.is_char_boundary(21);
        let b22 = text.is_char_boundary(22);
        let b23 = text.is_char_boundary(23);
        let b24 = text.is_char_boundary(24);
        let cut: usize = if b21 {
            21
        } else if b22 {
            22
        } else if b23 {
            23
        } else if b24 {
            24
        } else {
            size
        };
        proof {
            assert(cut == cut_at(text.spec_bytes()));
            assert(is_char_boundary(text.spec_bytes(), cut as int));
            vstd::utf8::valid_utf8_split(text.spec_bytes(), cut as int);
        }
        let (head, _) = text.split_at(cut);
        let mut part = head.to_owned();
        part.append(" ...");
        proof {
            vstd::utf8::encode_utf8_decode_utf8(head@);
        }
        debug_str(part.as_str())
    };
    out.append(shown.as_str());
}

fn push_node(out: &mut String, node: &SyntaxNode, indent: &str, first: bool)
    ensures
        final(out)@ == old(out)@ + dump_node(*node, indent@, first),
    decreases node,
{
    if !first {
        out.append("\n");
    }
    out.append(indent);
    push_header(out, node.kind, node.range);
    let mut deeper = indent.to_owned();
    deeper.append("  ");
    let ghost start = out@;
    let count = node.children.len();
    let mut i: usize = 0;
    proof {
        assert(out@ =~= start + dump_elements(node.children@, 0, deeper@));
    }
    while i < count
        invariant
            count == node.children@.len(),
            i <= count,
            deeper@ == indent@ + "  "@,
            out@ == start + dump_elements(node.children@, i as int, deeper@),
        decreases count - i,
    {
        let ghost before = out@;
        match &node.children[i] {
            SyntaxElement::Node(child) => {
                push_node(out, child, deeper.as_str(), false);
            },
            SyntaxElement::Token(token) => {
                out.append("\n");
                out.append(deeper.as_str());
                push_header(out, token.kind, token.range);
                out.append(" ");
                push_text(out, token.text.as_str());
                assert(out@ =~= before + dump_token(*token, deeper@));
            },
        }
        i += 1;
        proof {
            assert(out@ =~= start + dump_elements(node.children@, i as int, deeper@));
        }
    }
    proof {
        assert(out@ =~= old(out)@ + dump_node(*node, indent@, first));
    }
}

/// The dump of `node`: one line for each node and token below it, with its
/// kind, its range and, for a token, its text.
pub fn dump_tree(node: &SyntaxNode) -> (text: String)
    ensures
        text@ == dump(*node),
{
    let mut text = String::new();
    proof {
        reveal_strlit("");
    }
    push_node(&mut text, node, "", true);
    assert(text@ =~= dump(*node));
    text
}

} // verus!
