//! The line of text that shows one node of the tree.

use vstd::prelude::*;
use vstd::string::*;

use crate::node::{lemma_view_fields, Node, NodeView};
use crate::record::ROOT_SUBVOLUME_ID;

verus! {

/// The width that the label of a node is filled up to.
pub const LABEL_WIDTH: usize = 25;

/// The digit that writes `n`, a number below sixteen, in base sixteen.
pub open spec fn hex_digit(n: int) -> char {
    seq!['0', '1', '2', '3', '4', '5', '6', '7', '8', '9', 'a', 'b', 'c', 'd', 'e', 'f'][n]
}

/// The two digits that write a byte in base sixteen.
pub open spec fn hex_pair(byte: u8) -> Seq<char> {
    seq![hex_digit(byte as int / 16), hex_digit(byte as int % 16)]
}

/// The digits that write `bytes` in base sixteen, two for each byte.
pub open spec fn hex_text(bytes: Seq<u8>) -> Seq<char>
    decreases bytes.len(),
{
    if bytes.len() == 0 {
        Seq::empty()
    } else {
        hex_text(bytes.drop_last()) + hex_pair(bytes.last())
    }
}

/// The sixteen bytes of a UUID in its usual form: groups of eight, four,
/// four, four and twelve digits of base sixteen, in lower case, with
/// hyphens between them.
pub open spec fn hyphenated(bytes: Seq<u8>) -> Seq<char> {
    hex_text(bytes.subrange(0, 4)) + seq!['-'] + hex_text(bytes.subrange(4, 6)) + seq!['-']
        + hex_text(bytes.subrange(6, 8)) + seq!['-'] + hex_text(bytes.subrange(8, 10)) + seq!['-']
        + hex_text(bytes.subrange(10, 16))
}

/// `s` with spaces behind it up to `width` characters; `s` itself where it
/// is as long or longer.
pub open spec fn padded(s: Seq<char>, width: nat) -> Seq<char> {
    if s.len() >= width {
        s
    } else {
        s + Seq::new((width - s.len()) as nat, |i: int| ' ')
    }
}

/// What a node is called: its relative path, and without one `ROOT` for
/// the top-level subvolume and `<unknown>` for any other.
pub open spec fn label_of(t: NodeView) -> Seq<char> {
    match t.relative_path {
        Some(path) => path,
        None => if t.id == ROOT_SUBVOLUME_ID {
            "ROOT"@
        } else {
            "<unknown>"@
        },
    }
}

/// The line that shows a node: the label filled up with spaces, the UUID
/// in square brackets and, for a mounted subvolume, the mount point, with
/// two tabs between them.
pub open spec fn line_of(t: NodeView) -> Seq<char> {
    let head = padded(label_of(t), LABEL_WIDTH as nat) + "\t\t["@ + hyphenated(t.unique_id) + "]"@;
    match t.mountpoint {
        Some(mountpoint) => head + "\t\t"@ + mountpoint,
        None => head,
    }
}

/// Writes a UUID in its usual form.
///
/// The call is `uuid::Uuid::from_bytes`, which takes the bytes as they are,
/// and then `to_string`, which the uuid crate formats as `LowerHex` of the
/// hyphenated form: two lower-case digits of base sixteen for each byte in
/// order, the high half first, with a hyphen behind the fourth, sixth,
/// eighth and tenth byte. That is what the contract claims; it is not
/// proved.
#[verifier::external_body]
fn uuid_text(bytes: &[u8; 16]) -> (text: String)
    ensures
        text@ == hyphenated(bytes@),
{
    uuid::Uuid::from_bytes(*bytes).to_string()
}

/// `s` filled up with spaces to `width` characters.
pub fn pad(s: &str, width: usize) -> (filled: String)
    ensures
        filled@ == padded(s@, width as nat),
{
    let length: usize = s.unicode_len();
    let mut filled = s.to_owned();
    if length >= width {
        return filled;
    }
    let mut count: usize = length;
    proof {
        reveal_strlit(" ");
        assert(s@ + Seq::new(0nat, |i: int| ' ') =~= s@);
    }
    while count < width
        invariant
            length <= count <= width,
            length == s@.len(),
            " "@ == seq![' '],
            filled@ == s@ + Seq::new((count - length) as nat, |i: int| ' '),
        decreases width - count,
    {
        filled.append(" ");
        count += 1;
        assert(filled@ =~= s@ + Seq::new((count - length) as nat, |i: int| ' '));
    }
    filled
}

impl Node {
    /// What the node is called.
    pub fn label(&self) -> (label: String)
        ensures
            label@ == label_of(self@),
    {
        proof {
            lemma_view_fields(*self);
        }
        match &self.relative_path {
            Some(path) => path.clone(),
            None => if self.id == ROOT_SUBVOLUME_ID {
                "ROOT".to_owned()
            } else {
                "<unknown>".to_owned()
            },
        }
    }

    /// The line that shows the node.
    pub fn line(&self) -> (line: String)
        ensures
            line@ == line_of(self@),
    {
        proof {
            lemma_view_fields(*self);
        }
        let label = self.label();
        let mut line = pad(label.as_str(), LABEL_WIDTH);
        line.append("\t\t[");
        let uuid = uuid_text(&self.unique_id);
        line.append(uuid.as_str());
        line.append("]");
        match &self.mountpoint {
            Some(mountpoint) => {
                line.append("\t\t");
                line.append(mountpoint.as_str());
            },
            None => {},
        }
        line
    }
}

} // verus!
