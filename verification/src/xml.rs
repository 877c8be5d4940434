//! Diagnostic XML rendering of node trees.
//!
//! A node prints as `<tag k="v" ...>content</tag>`, or self-closing when
//! it has no printable content. Attribute order follows the node's own
//! deterministic attribute order. Byte content prints as text when it is
//! printable ASCII, as hex up to 128 bytes, and as a byte-count comment
//! beyond that.

use vstd::prelude::*;
use vstd::string::StrSliceExecFns;
use crate::node::{Node, Value};

verus! {

broadcast use vstd::std_specs::vec::group_vec_axioms, vstd::seq::group_seq_axioms;

/// Lower-case hex digit character of a 4-bit value.
pub open spec fn hex_digit(n: u8) -> char {
    if n < 10 {
        (((48 + n) as u32) as char)
    } else {
        (((87 + n) as u32) as char)
    }
}

/// Lower-case hex image of a byte string: two digits per byte.
pub open spec fn hex_of(b: Seq<u8>) -> Seq<char> {
    Seq::new(
        2 * b.len(),
        |i: int|
            if i % 2 == 0 {
                hex_digit(b[i / 2] / 16)
            } else {
                hex_digit((b[i / 2] % 16) as u8)
            },
    )
}

/// Relies on hex::encode: two lower-case digits per byte, high nibble
/// first.
#[verifier::external_body]
fn hex_encode(data: &Vec<u8>) -> (r: String)
    ensures
        r@ == hex_of(data@),
{
    hex::encode(data.as_slice())
}

/// Whether every byte prints as ASCII text: graphic or whitespace.
fn printable_ascii(data: &Vec<u8>) -> (r: bool)
    ensures
        r == (forall|i: int|
            0 <= i < data@.len() ==> (32 <= #[trigger] data@[i] <= 126 || data@[i] == 9
                || data@[i] == 10 || data@[i] == 13)),
{
    let n = data.len();
    let mut i: usize = 0;
    while i < n
        invariant
            n == data@.len(),
            i <= n,
            forall|j: int|
                0 <= j < i ==> (32 <= #[trigger] data@[j] <= 126 || data@[j] == 9 || data@[j]
                    == 10 || data@[j] == 13),
        decreases n - i,
    {
        let b = data[i];
        if !(32 <= b && b <= 126 || b == 9 || b == 10 || b == 13) {
            return false;
        }
        i = i + 1;
    }
    true
}

/// Escapes line feeds as the two characters `\n`, keeping single-line
/// output.
fn escape_newlines(s: &String) -> String {
    let bytes = s.as_str().as_bytes_vec();
    let n = bytes.len();
    let mut out: Vec<u8> = Vec::new();
    let mut i: usize = 0;
    while i < n
        invariant
            n == bytes@.len(),
            i <= n,
        decreases n - i,
    {
        let b = bytes[i];
        if b == 10 {
            out.push(92);
            out.push(110);
        } else {
            out.push(b);
        }
        i = i + 1;
    }
    crate::decoder::string_from_bytes(&out)
}

impl Node {
    /// Renders the node tree as one line of XML.
    pub fn to_xml(&self) -> String {
        self.to_xml_string_internal(0)
    }

    /// Renders one node at the given nesting level.
    fn to_xml_string_internal(&self, level: usize) -> String
        decreases self, 1int,
    {
        let attr_str = self.attribute_string();
        let next_level = if level < usize::MAX {
            level + 1
        } else {
            level
        };
        let content = self.content_string(next_level);
        let mut s = String::from_str("<");
        s.append(self.tag.as_str());
        s.append(attr_str.as_str());
        if content.len() == 0 {
            s.append(" />");
            s
        } else {
            s.append(">");
            let n = content.len();
            let mut i: usize = 0;
            while i < n
                invariant
                    n == content@.len(),
                decreases n - i,
            {
                s.append(content[i].as_str());
                i = i + 1;
            }
            s.append("</");
            s.append(self.tag.as_str());
            s.append(">");
            s
        }
    }

    /// Renders the attribute list as ` k="v" ...`, sorted
    /// lexicographically by key for a stable reading.
    fn attribute_string(&self) -> String
        decreases self, 0int,
    {
        let n = self.attributes.len();
        if n == 0 {
            return String::new();
        }
        let mut rendered: Vec<(String, String)> = Vec::new();
        let mut i: usize = 0;
        #[verifier::loop_isolation(false)]
        while i < n
            invariant
                n == self.attributes@.len(),
            decreases n - i,
        {
            proof {
                assert(decreases_to!(*self => self.attributes@[i as int])) by {
                    assert(decreases_to!(*self => self.attributes));
                    assert(decreases_to!(self.attributes => self.attributes@));
                    assert(decreases_to!(self.attributes@ => self.attributes@[i as int]));
                }
            }
            let v = Self::value_as_string(&self.attributes[i].1);
            rendered.push((self.attributes[i].0.clone(), v));
            i = i + 1;
        }
        let mut sorted: Vec<(String, String)> = Vec::new();
        while rendered.len() > 0
            decreases rendered@.len(),
        {
            let p = rendered.remove(0);
            let mut j: usize = 0;
            while j < sorted.len() && crate::encoder::BinaryEncoder::key_le_exec(
                &sorted[j].0,
                &p.0,
            )
                invariant
                    j <= sorted@.len(),
                decreases sorted@.len() - j,
            {
                j = j + 1;
            }
            sorted.insert(j, p);
        }
        let mut s = String::new();
        let m = sorted.len();
        let mut k: usize = 0;
        while k < m
            invariant
                m == sorted@.len(),
            decreases m - k,
        {
            s.append(" ");
            s.append(sorted[k].0.as_str());
            s.append("=\u{22}");
            s.append(sorted[k].1.as_str());
            s.append("\u{22}");
            k = k + 1;
        }
        s
    }

    /// Renders the content as lines: child nodes, printable text, hex
    /// bytes, or nothing.
    fn content_string(&self, level: usize) -> Vec<String>
        decreases self, 0int,
    {
        match &self.content {
            Some(Value::List(nodes)) => {
                let mut out: Vec<String> = Vec::new();
                let n = nodes.len();
                let mut i: usize = 0;
                #[verifier::loop_isolation(false)]
                while i < n
                    invariant
                        n == nodes@.len(),
                    decreases n - i,
                {
                    proof {
                        assert(self.content matches Some(c) && c == Value::List(*nodes));
                        assert(decreases_to!(*self => nodes@[i as int])) by {
                            assert(decreases_to!(*self => *nodes));
                            assert(decreases_to!(*nodes => nodes@));
                            assert(decreases_to!(nodes@ => nodes@[i as int]));
                        }
                    }
                    out.push(nodes[i].to_xml_string_internal(level));
                    i = i + 1;
                }
                out
            },
            Some(Value::Node(n)) => {
                proof {
                    assert(self.content matches Some(c) && c == Value::Node(*n));
                    assert(decreases_to!(*self => **n)) by {
                        assert(decreases_to!(*self => *n));
                    }
                }
                let mut out: Vec<String> = Vec::new();
                out.push((**n).to_xml_string_internal(level));
                out
            },
            Some(Value::Bytes(bytes)) => Self::format_bytes(bytes, level),
            Some(Value::Str(s)) => {
                let mut out: Vec<String> = Vec::new();
                out.push(escape_newlines(s));
                out
            },
            Some(Value::Null) => Vec::new(),
            Some(Value::Jid(j)) => {
                let mut out: Vec<String> = Vec::new();
                out.push(Self::value_as_string(&Value::Jid(crate::jid::JID {
                    user: match &j.user {
                        Some(u) => Some(u.clone()),
                        None => None,
                    },
                    raw_agent: j.raw_agent,
                    device: j.device,
                    integrator: j.integrator,
                    server: match &j.server {
                        Some(sv) => Some(sv.clone()),
                        None => None,
                    },
                })));
                out
            },
            None => Vec::new(),
        }
    }

    /// Renders one attribute value: a string as itself, an identifier as
    /// `user@server`, bytes as text or hex, anything else empty.
    fn value_as_string(v: &Value) -> String {
        match v {
            Value::Str(s) => s.clone(),
            Value::Jid(jid) => {
                let mut s = match &jid.user {
                    Some(u) => u.clone(),
                    None => String::new(),
                };
                s.append("@");
                match &jid.server {
                    Some(sv) => {
                        s.append(sv.as_str());
                    },
                    None => {},
                }
                s
            },
            Value::Bytes(b) => {
                if printable_ascii(b) {
                    crate::decoder::string_from_bytes(b)
                } else {
                    hex_encode(b)
                }
            },
            _ => String::new(),
        }
    }

    /// Renders byte content: printable text as itself, otherwise hex, or
    /// a byte-count comment past 128 bytes.
    fn format_bytes(b: &Vec<u8>, level: usize) -> Vec<String> {
        let mut out: Vec<String> = Vec::new();
        if printable_ascii(b) {
            out.push(escape_newlines(&crate::decoder::string_from_bytes(b)));
        } else if b.len() > 128 {
            let mut s = String::from_str("<!-- ");
            let count = crate::session::u64_to_string(b.len() as u64);
            s.append(count.as_str());
            s.append(" bytes -->");
            out.push(s);
        } else {
            out.push(hex_encode(b));
        }
        out
    }
}

} // verus!
