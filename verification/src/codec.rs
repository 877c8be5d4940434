//! Wire-format specification of the binary XML codec.
//!
//! `enc_node` gives the exact byte image of a well-formed node; the
//! encoder is proved to emit it and the decoder to invert it. A node is
//! emitted as a list opening of its tuple arity `2·attrs + 1 +
//! has_content`, then the tag string, interleaved attribute pairs and the
//! optional content value. Strings prefer the dictionaries, then nibble
//! or hex packing, then raw length-prefixed UTF-8 bytes.

use vstd::prelude::*;
use vstd::utf8::encode_utf8;
use crate::jid::JidView;
use crate::node::{NodeView, ValueView};
use crate::token::{
    spec_single_token_index, spec_double_token_index, AD_JID, BINARY_20, BINARY_32, BINARY_8,
    DICTIONARY_0, FB_JID, HEX_8, INTEROP_JID, JID_PAIR, LIST_16, LIST_8, LIST_EMPTY, NIBBLE_8,
};
use crate::wire::{spec_be16, spec_be24, spec_be32};

verus! {

/// Whether a character belongs to the nibble-packing alphabet
/// `{0-9, '-', '.'}`.
pub open spec fn nib_char(c: char) -> bool {
    (48 <= c as u32 <= 57) || c as u32 == 45 || c as u32 == 46
}

/// Whether a character belongs to the hex-packing alphabet `{0-9, A-F}`.
pub open spec fn hex_char(c: char) -> bool {
    (48 <= c as u32 <= 57) || (65 <= c as u32 <= 70)
}

/// A string short enough to pack whose characters are all nibble
/// characters.
pub open spec fn nibble_ok(s: Seq<char>) -> bool {
    s.len() <= 127 && forall|i: int| 0 <= i < s.len() ==> nib_char(#[trigger] s[i])
}

/// A string short enough to pack whose characters are all hex characters.
pub open spec fn hex_ok(s: Seq<char>) -> bool {
    s.len() <= 127 && forall|i: int| 0 <= i < s.len() ==> hex_char(#[trigger] s[i])
}

/// Four-bit code of a nibble character: digits map to their value,
/// `-` to 10 and `.` to 11.
pub open spec fn nib_val(c: char) -> u8 {
    if 48 <= c as u32 <= 57 {
        (c as u32 - 48) as u8
    } else if c as u32 == 45 {
        10u8
    } else {
        11u8
    }
}

/// Four-bit code of a hex character.
pub open spec fn hex_val(c: char) -> u8 {
    if 48 <= c as u32 <= 57 {
        (c as u32 - 48) as u8
    } else {
        (c as u32 - 55) as u8
    }
}

/// Length byte of a packed string: low 7 bits are the rounded-up byte
/// count, the top bit flags an odd character count.
pub open spec fn packed_len_byte(n: int) -> u8
    recommends
        0 <= n <= 127,
{
    (((n + 1) / 2) + if n % 2 == 1 {
        128int
    } else {
        0int
    }) as u8
}

/// Packed body: two 4-bit codes per byte, the odd tail padded with 15.
pub open spec fn packed_body(s: Seq<char>, hexmode: bool) -> Seq<u8> {
    Seq::new(
        (((s.len() + 1) / 2) as nat),
        |i: int|
            {
                let hi = if hexmode {
                    hex_val(s[2 * i])
                } else {
                    nib_val(s[2 * i])
                };
                let lo = if 2 * i + 1 < s.len() {
                    if hexmode {
                        hex_val(s[2 * i + 1])
                    } else {
                        nib_val(s[2 * i + 1])
                    }
                } else {
                    15u8
                };
                (hi * 16 + lo) as u8
            },
    )
}

/// Length prefix of a raw byte string: 8-bit, 20-bit or 32-bit form.
pub open spec fn enc_len_prefix(n: int) -> Seq<u8>
    recommends
        0 <= n < 0x8000_0000,
{
    if n < 0x100 {
        seq![BINARY_8, n as u8]
    } else if n < 0x100000 {
        seq![BINARY_20] + spec_be24(n)
    } else {
        seq![BINARY_32] + spec_be32(n)
    }
}

/// Raw bytes with their length prefix.
pub open spec fn enc_bytes(b: Seq<u8>) -> Seq<u8> {
    enc_len_prefix(b.len() as int) + b
}

/// Byte image of a string: a dictionary token, a packed form, or raw
/// length-prefixed UTF-8 bytes.
pub open spec fn enc_str(s: Seq<char>) -> Seq<u8> {
    if spec_single_token_index(s) is Some {
        seq![spec_single_token_index(s).unwrap()]
    } else if spec_double_token_index(s) is Some {
        let p = spec_double_token_index(s).unwrap();
        seq![(DICTIONARY_0 + p.0) as u8, p.1]
    } else if nibble_ok(s) {
        seq![NIBBLE_8, packed_len_byte(s.len() as int)] + packed_body(s, false)
    } else if hex_ok(s) {
        seq![HEX_8, packed_len_byte(s.len() as int)] + packed_body(s, true)
    } else {
        enc_bytes(encode_utf8(s))
    }
}

/// A string the encoder can emit: its UTF-8 form fits a 32-bit length.
pub open spec fn wf_str(s: Seq<char>) -> bool {
    encode_utf8(s).len() < 0x8000_0000
}

/// A string that decodes back as a string even in content position: one
/// with a dictionary or packed form.
pub open spec fn packable_str(s: Seq<char>) -> bool {
    ||| spec_single_token_index(s) is Some
    ||| spec_double_token_index(s) is Some
    ||| nibble_ok(s)
    ||| hex_ok(s)
}

/// The agent-addressed identifier form: `s.whatsapp.net` with a device,
/// `lid`, or `hosted`, each pinned to its agent byte.
pub open spec fn ad_form(j: JidView) -> bool {
    &&& j.user is Some
    &&& j.integrator is None
    &&& j.device matches Some(d) && d <= 255
    &&& {
        ||| (j.server == Some("s.whatsapp.net"@) && j.raw_agent == Some(0u8) && j.device.unwrap()
            >= 1)
        ||| (j.server == Some("lid"@) && j.raw_agent == Some(1u8))
        ||| (j.server == Some("hosted"@) && j.raw_agent == Some(2u8))
    }
}

/// The `msgr` identifier form.
pub open spec fn fb_form(j: JidView) -> bool {
    &&& j.server == Some("msgr"@)
    &&& j.user is Some
    &&& j.device is Some
    &&& j.raw_agent is None
    &&& j.integrator is None
}

/// The `interop` identifier form.
pub open spec fn interop_form(j: JidView) -> bool {
    &&& j.server == Some("interop"@)
    &&& j.user is Some
    &&& j.device is Some
    &&& j.integrator is Some
    &&& j.raw_agent is None
}

/// The plain `user@server` pair form: no decorations, and a server that
/// does not route to one of the special forms.
pub open spec fn pair_form(j: JidView) -> bool {
    &&& j.raw_agent is None
    &&& j.device is None
    &&& j.integrator is None
    &&& (j.user is None || j.user.unwrap().len() > 0)
    &&& (j.server is None || j.server.unwrap().len() > 0)
    &&& j.server != Some("lid"@)
    &&& j.server != Some("hosted"@)
    &&& j.server != Some("msgr"@)
    &&& j.server != Some("interop"@)
}

/// A well-formed identifier: exactly one wire form applies and its
/// strings are encodable.
pub open spec fn wf_jid(j: JidView) -> bool {
    &&& (ad_form(j) || fb_form(j) || interop_form(j) || pair_form(j))
    &&& (j.user is Some ==> wf_str(j.user.unwrap()))
    &&& (j.server is Some ==> wf_str(j.server.unwrap()))
}

/// Byte image of an identifier, by form.
pub open spec fn enc_jid(j: JidView) -> Seq<u8> {
    if ad_form(j) {
        seq![AD_JID, j.raw_agent.unwrap(), j.device.unwrap() as u8] + enc_str(j.user.unwrap())
    } else if fb_form(j) {
        seq![FB_JID] + enc_str(j.user.unwrap()) + spec_be16(j.device.unwrap() as int) + enc_str(
            j.server.unwrap(),
        )
    } else if interop_form(j) {
        seq![INTEROP_JID] + enc_str(j.user.unwrap()) + spec_be16(j.device.unwrap() as int)
            + spec_be16(j.integrator.unwrap() as int) + enc_str(j.server.unwrap())
    } else {
        seq![JID_PAIR] + (match j.user {
            Some(u) => enc_str(u),
            None => seq![LIST_EMPTY],
        }) + (match j.server {
            Some(sv) => enc_str(sv),
            None => enc_str(Seq::<char>::empty()),
        })
    }
}

/// List opening: empty, 8-bit, or big-endian 16-bit length.
pub open spec fn enc_list_start(n: int) -> Seq<u8>
    recommends
        0 <= n < 0x8000,
{
    if n == 0 {
        seq![LIST_EMPTY]
    } else if n < 128 {
        seq![LIST_8, n as u8]
    } else {
        seq![LIST_16] + spec_be16(n)
    }
}

/// Byte image of a value in any position.
pub open spec fn enc_value(v: ValueView) -> Seq<u8>
    decreases v, 0int,
{
    match v {
        ValueView::Null => seq![LIST_EMPTY],
        ValueView::Str(s) => enc_str(s),
        ValueView::Bytes(b) => enc_bytes(b),
        ValueView::Jid(j) => enc_jid(j),
        ValueView::List(ns) => enc_list_start(ns.len() as int) + enc_nodes(ns),
        ValueView::Node(_) => Seq::empty(),
    }
}

/// Byte images of a node sequence, concatenated.
pub open spec fn enc_nodes(ns: Seq<NodeView>) -> Seq<u8>
    decreases ns, 0int,
{
    if ns.len() <= 0 {
        Seq::empty()
    } else {
        enc_node(ns[0]) + enc_nodes(ns.subrange(1, ns.len() as int))
    }
}

/// Byte images of an attribute list: interleaved key and value.
pub open spec fn enc_attrs(attrs: Seq<(Seq<char>, ValueView)>) -> Seq<u8>
    decreases attrs, 0int,
{
    if attrs.len() <= 0 {
        Seq::empty()
    } else {
        enc_str(attrs[0].0) + enc_value(attrs[0].1) + enc_attrs(
            attrs.subrange(1, attrs.len() as int),
        )
    }
}

/// Code-point order on strings: `a` at or before `b` lexicographically.
pub open spec fn key_le(a: Seq<char>, b: Seq<char>) -> bool
    decreases a.len(),
{
    if a.len() == 0 {
        true
    } else if b.len() == 0 {
        false
    } else if a[0] as u32 != b[0] as u32 {
        (a[0] as u32) < (b[0] as u32)
    } else {
        key_le(a.skip(1), b.skip(1))
    }
}

/// The key order is total.
pub proof fn lemma_key_le_total(a: Seq<char>, b: Seq<char>)
    ensures
        key_le(a, b) || key_le(b, a),
    decreases a.len(),
{
    if a.len() > 0 && b.len() > 0 && a[0] as u32 == b[0] as u32 {
        lemma_key_le_total(a.skip(1), b.skip(1));
    }
}

/// An attribute list in non-decreasing key order.
pub open spec fn sorted_attrs(s: Seq<(Seq<char>, ValueView)>) -> bool {
    forall|i: int, j: int|
        0 <= i < j < s.len() ==> key_le((#[trigger] s[i]).0, (#[trigger] s[j]).0)
}

/// A value that is skipped on the wire: null or the empty string.
pub open spec fn skippable(v: ValueView) -> bool {
    v is Null || (v matches ValueView::Str(s0) && s0.len() == 0)
}

/// One attribute as it reaches the wire: its key and its byte image,
/// key and value interleaved.
pub struct AttrEnc {
    pub key: Seq<char>,
    pub bytes: Seq<u8>,
}

/// The images of the attribute entries that reach the wire, in stored
/// order: null and empty-string values drop out.
pub open spec fn kept_encs(s: Seq<(Seq<char>, ValueView)>) -> Seq<AttrEnc>
    decreases s, 0int,
{
    if s.len() == 0 {
        Seq::empty()
    } else {
        (if skippable(s[0].1) {
            Seq::<AttrEnc>::empty()
        } else {
            seq![AttrEnc { key: s[0].0, bytes: enc_str(s[0].0) + enc_value(s[0].1) }]
        }) + kept_encs(s.subrange(1, s.len() as int))
    }
}

/// Keeping one more attribute appends its image exactly when its value
/// is not skipped.
pub proof fn lemma_kept_encs_push(s: Seq<(Seq<char>, ValueView)>, p: (Seq<char>, ValueView))
    ensures
        kept_encs(s.push(p)) == kept_encs(s) + (if skippable(p.1) {
            Seq::<AttrEnc>::empty()
        } else {
            seq![AttrEnc { key: p.0, bytes: enc_str(p.0) + enc_value(p.1) }]
        }),
    decreases s.len(),
{
    if s.len() == 0 {
        assert(s.push(p)[0] == p);
        assert(s.push(p).subrange(1, 1) =~= Seq::<(Seq<char>, ValueView)>::empty());
        assert(kept_encs(Seq::<(Seq<char>, ValueView)>::empty()) =~= Seq::<AttrEnc>::empty());
        assert(kept_encs(s.push(p)) =~= kept_encs(s) + (if skippable(p.1) {
            Seq::<AttrEnc>::empty()
        } else {
            seq![AttrEnc { key: p.0, bytes: enc_str(p.0) + enc_value(p.1) }]
        }));
    } else {
        assert(s.push(p)[0] == s[0]);
        assert(s.push(p).subrange(1, s.push(p).len() as int) =~= s.subrange(
            1,
            s.len() as int,
        ).push(p));
        lemma_kept_encs_push(s.subrange(1, s.len() as int), p);
        assert(kept_encs(s.push(p)) =~= kept_encs(s) + (if skippable(p.1) {
            Seq::<AttrEnc>::empty()
        } else {
            seq![AttrEnc { key: p.0, bytes: enc_str(p.0) + enc_value(p.1) }]
        }));
    }
}

/// Attribute images in non-decreasing key order.
pub open spec fn sorted_encs(s: Seq<AttrEnc>) -> bool {
    forall|i: int, j: int|
        0 <= i < j < s.len() ==> key_le((#[trigger] s[i]).key, (#[trigger] s[j]).key)
}

/// Inserts an image before the first image whose key is past it: a
/// stable insertion.
pub open spec fn insert_enc(s: Seq<AttrEnc>, p: AttrEnc) -> Seq<AttrEnc>
    decreases s.len(),
{
    if s.len() == 0 {
        seq![p]
    } else if key_le(s[0].key, p.key) {
        seq![s[0]] + insert_enc(s.subrange(1, s.len() as int), p)
    } else {
        seq![p] + s
    }
}

/// The attribute images in lexicographic key order: a stable insertion
/// sort, taken left to right.
pub open spec fn sort_encs(s: Seq<AttrEnc>) -> Seq<AttrEnc>
    decreases s.len(),
{
    if s.len() == 0 {
        Seq::empty()
    } else {
        insert_enc(sort_encs(s.drop_last()), s.last())
    }
}

/// Insertion lands exactly at the first position whose key is past the
/// new image's.
pub proof fn lemma_insert_enc_at(s: Seq<AttrEnc>, p: AttrEnc, j: int)
    requires
        0 <= j <= s.len(),
        forall|k: int| 0 <= k < j ==> key_le((#[trigger] s[k]).key, p.key),
        j < s.len() ==> !key_le(s[j as int].key, p.key),
    ensures
        insert_enc(s, p) == s.take(j) + seq![p] + s.skip(j),
    decreases j,
{
    if s.len() == 0 {
        assert(insert_enc(s, p) =~= s.take(j) + seq![p] + s.skip(j));
    } else if j == 0 {
        assert(s.take(0) =~= Seq::<AttrEnc>::empty());
        assert(s.skip(0) =~= s);
        assert(insert_enc(s, p) =~= s.take(j) + seq![p] + s.skip(j));
    } else {
        let rest = s.subrange(1, s.len() as int);
        assert forall|k: int| 0 <= k < j - 1 implies key_le((#[trigger] rest[k]).key, p.key) by {
            assert(rest[k] == s[k + 1]);
        }
        assert(j - 1 < rest.len() ==> !key_le(rest[j - 1].key, p.key));
        lemma_insert_enc_at(rest, p, j - 1);
        assert(rest.take(j - 1) =~= s.take(j).skip(1));
        assert(rest.skip(j - 1) =~= s.skip(j));
        assert(insert_enc(s, p) =~= s.take(j) + seq![p] + s.skip(j));
    }
}

/// Inserting past everything appends.
pub proof fn lemma_insert_enc_end(s: Seq<AttrEnc>, p: AttrEnc)
    requires
        forall|k: int| 0 <= k < s.len() ==> key_le((#[trigger] s[k]).key, p.key),
    ensures
        insert_enc(s, p) == s.push(p),
{
    lemma_insert_enc_at(s, p, s.len() as int);
    assert(s.take(s.len() as int) =~= s);
    assert(s.skip(s.len() as int) =~= Seq::<AttrEnc>::empty());
    assert(s.take(s.len() as int) + seq![p] + s.skip(s.len() as int) =~= s.push(p));
}

/// Insertion grows the list by one.
pub proof fn lemma_insert_enc_len(s: Seq<AttrEnc>, p: AttrEnc)
    ensures
        insert_enc(s, p).len() == s.len() + 1,
    decreases s.len(),
{
    if s.len() > 0 && key_le(s[0].key, p.key) {
        lemma_insert_enc_len(s.subrange(1, s.len() as int), p);
    }
}

/// Sorting preserves the length.
pub proof fn lemma_sort_encs_len(s: Seq<AttrEnc>)
    ensures
        sort_encs(s).len() == s.len(),
    decreases s.len(),
{
    if s.len() > 0 {
        lemma_sort_encs_len(s.drop_last());
        lemma_insert_enc_len(sort_encs(s.drop_last()), s.last());
    }
}

/// Sorting already sorted images changes nothing.
pub proof fn lemma_sort_encs_id(s: Seq<AttrEnc>)
    requires
        sorted_encs(s),
    ensures
        sort_encs(s) == s,
    decreases s.len(),
{
    if s.len() > 0 {
        let front = s.drop_last();
        assert forall|i: int, j: int|
            0 <= i < j < front.len() implies key_le((#[trigger] front[i]).key, (
        #[trigger] front[j]).key) by {
            assert(front[i] == s[i] && front[j] == s[j]);
        }
        lemma_sort_encs_id(front);
        assert forall|k: int| 0 <= k < front.len() implies key_le(
            (#[trigger] front[k]).key,
            s.last().key,
        ) by {
            assert(front[k] == s[k]);
        }
        lemma_insert_enc_end(front, s.last());
        assert(front.push(s.last()) =~= s);
    }
}

/// The bytes of a run of attribute images, concatenated.
pub open spec fn concat_encs(s: Seq<AttrEnc>) -> Seq<u8>
    decreases s.len(),
{
    if s.len() == 0 {
        Seq::empty()
    } else {
        s[0].bytes + concat_encs(s.subrange(1, s.len() as int))
    }
}

/// Concatenation appends elementwise.
pub proof fn lemma_concat_encs_push(s: Seq<AttrEnc>, p: AttrEnc)
    ensures
        concat_encs(s.push(p)) == concat_encs(s) + p.bytes,
    decreases s.len(),
{
    if s.len() == 0 {
        assert(s.push(p)[0] == p);
        assert(s.push(p).subrange(1, 1) =~= Seq::<AttrEnc>::empty());
        assert(concat_encs(Seq::<AttrEnc>::empty()) =~= Seq::<u8>::empty());
        assert(concat_encs(s.push(p)) =~= concat_encs(s) + p.bytes);
    } else {
        assert(s.push(p)[0] == s[0]);
        assert(s.push(p).subrange(1, s.push(p).len() as int) =~= s.subrange(
            1,
            s.len() as int,
        ).push(p));
        lemma_concat_encs_push(s.subrange(1, s.len() as int), p);
        assert(concat_encs(s.push(p)) =~= concat_encs(s) + p.bytes);
    }
}

/// The wire bytes of a node's attributes: the kept images in
/// lexicographic key order.
pub open spec fn enc_attrs_wire(attrs: Seq<(Seq<char>, ValueView)>) -> Seq<u8>
    decreases attrs, 1int,
{
    concat_encs(sort_encs(kept_encs(attrs)))
}

/// Tuple arity of a node on the wire.
pub open spec fn node_arity(n: NodeView) -> int
    decreases n, 1int,
{
    2 * kept_encs(n.attributes).len() + 1 + if n.content is Some {
        1int
    } else {
        0int
    }
}

/// Byte image of a node: the arity, the tag, the surviving attributes in
/// lexicographic key order, and the content if any.
pub open spec fn enc_node(n: NodeView) -> Seq<u8>
    decreases n, 2int,
{
    enc_list_start(node_arity(n)) + enc_str(n.tag) + enc_attrs_wire(n.attributes) + (match
    n.content {
        Some(v) => enc_value(v),
        None => Seq::empty(),
    })
}

/// A value allowed as an attribute value: a non-empty encodable string
/// or a well-formed identifier. Null and empty-string values must be
/// skipped on the wire, so a well-formed node has none.
pub open spec fn wf_attr_value(v: ValueView) -> bool {
    match v {
        ValueView::Str(s) => wf_str(s) && s.len() > 0,
        ValueView::Jid(j) => wf_jid(j),
        _ => false,
    }
}

/// A value allowed as content: a string with a dictionary or packed
/// form (raw string bytes decode as `Bytes` in content position), raw
/// bytes, an identifier, or a non-empty list of well-formed nodes.
pub open spec fn wf_content(v: ValueView) -> bool
    decreases v,
{
    match v {
        ValueView::Str(s) => wf_str(s) && packable_str(s),
        ValueView::Bytes(b) => b.len() < 0x8000_0000,
        ValueView::Jid(j) => wf_jid(j),
        ValueView::List(ns) => 1 <= ns.len() < 0x8000 && wf_nodes(ns),
        _ => false,
    }
}

/// A value the encoder can emit: the decoder may give it back in a
/// different guise (`wf_attr_value` and `wf_content` narrow this to the
/// round-tripping kinds).
pub open spec fn wf_value(v: ValueView) -> bool
    decreases v,
{
    match v {
        ValueView::Str(s) => wf_str(s),
        ValueView::Bytes(b) => b.len() < 0x8000_0000,
        ValueView::Jid(j) => wf_jid(j),
        ValueView::List(ns) => ns.len() < 0x8000 && wf_nodes_enc(ns),
        _ => false,
    }
}

/// A node the encoder can emit exactly: an encodable tag other than the
/// stream marker, at most `0x3FFE` surviving attributes whose kept
/// values are encodable, and encodable content. Attributes need not be
/// sorted and may hold null or empty-string values; those are skipped on
/// the wire.
pub open spec fn wf_node_enc(n: NodeView) -> bool
    decreases n,
{
    &&& wf_str(n.tag)
    &&& n.tag.len() > 0
    &&& n.tag != "0"@
    &&& kept_encs(n.attributes).len() <= 0x3FFE
    &&& (forall|i: int|
        0 <= i < n.attributes.len() ==> (!skippable((#[trigger] n.attributes[i]).1) ==> wf_str(
            n.attributes[i].0,
        ) && wf_value(n.attributes[i].1)))
    &&& match n.content {
        Some(v) => wf_value(v),
        None => true,
    }
}

/// Every node of a sequence is encodable.
pub open spec fn wf_nodes_enc(ns: Seq<NodeView>) -> bool
    decreases ns,
{
    if ns.len() <= 0 {
        true
    } else {
        wf_node_enc(ns[0]) && wf_nodes_enc(ns.subrange(1, ns.len() as int))
    }
}

/// Every node of a sequence is well formed.
pub open spec fn wf_nodes(ns: Seq<NodeView>) -> bool
    decreases ns,
{
    if ns.len() <= 0 {
        true
    } else {
        wf_node(ns[0]) && wf_nodes(ns.subrange(1, ns.len() as int))
    }
}

/// A node the codec round-trips: a non-empty tag other than the stream
/// marker `"0"`, at most `0x3FFF` attributes with unique non-empty keys
/// and well-formed values, identifier values under a `lid` key already on
/// the `lid` server, and well-formed content if any.
pub open spec fn wf_node(n: NodeView) -> bool
    decreases n,
{
    &&& wf_str(n.tag)
    &&& n.tag.len() > 0
    &&& n.tag != "0"@
    &&& n.attributes.len() <= 0x3FFE
    &&& sorted_attrs(n.attributes)
    &&& (forall|i: int|
        0 <= i < n.attributes.len() ==> {
            &&& wf_str((#[trigger] n.attributes[i]).0)
            &&& n.attributes[i].0.len() > 0
            &&& wf_attr_value(n.attributes[i].1)
        })
    &&& (forall|i: int, j: int|
        0 <= i < j < n.attributes.len() ==> (#[trigger] n.attributes[i]).0 != (
        #[trigger] n.attributes[j]).0)
    &&& (forall|i: int|
        0 <= i < n.attributes.len() ==> (((#[trigger] n.attributes[i]).0 == "lid"@
            && n.attributes[i].1 is Jid) ==> n.attributes[i].1->Jid_0.server == Some("lid"@)))
    &&& match n.content {
        Some(v) => wf_content(v),
        None => true,
    }
}

/// With no skippable values, every attribute's image is kept, in order.
pub proof fn lemma_kept_encs_all(s: Seq<(Seq<char>, ValueView)>)
    requires
        forall|i: int| 0 <= i < s.len() ==> !skippable((#[trigger] s[i]).1),
    ensures
        kept_encs(s).len() == s.len(),
        forall|i: int|
            0 <= i < s.len() ==> #[trigger] kept_encs(s)[i] == (AttrEnc {
                key: s[i].0,
                bytes: enc_str(s[i].0) + enc_value(s[i].1),
            }),
    decreases s.len(),
{
    if s.len() > 0 {
        let rest = s.subrange(1, s.len() as int);
        assert forall|i: int| 0 <= i < rest.len() implies !skippable((#[trigger] rest[i]).1) by {
            assert(rest[i] == s[i + 1]);
        }
        lemma_kept_encs_all(rest);
        assert forall|i: int|
            0 <= i < s.len() implies #[trigger] kept_encs(s)[i] == (AttrEnc {
                key: s[i].0,
                bytes: enc_str(s[i].0) + enc_value(s[i].1),
            }) by {
            if i > 0 {
                assert(kept_encs(s)[i] == kept_encs(rest)[i - 1]);
                assert(rest[i - 1] == s[i]);
            }
        }
    }
}

/// With no skippable values, concatenating the kept images gives the
/// plain interleaved attribute image.
pub proof fn lemma_concat_kept(s: Seq<(Seq<char>, ValueView)>)
    requires
        forall|i: int| 0 <= i < s.len() ==> !skippable((#[trigger] s[i]).1),
    ensures
        concat_encs(kept_encs(s)) == enc_attrs(s),
    decreases s.len(),
{
    if s.len() == 0 {
        assert(concat_encs(kept_encs(s)) =~= enc_attrs(s));
    } else {
        let rest = s.subrange(1, s.len() as int);
        assert forall|i: int| 0 <= i < rest.len() implies !skippable((#[trigger] rest[i]).1) by {
            assert(rest[i] == s[i + 1]);
        }
        lemma_concat_kept(rest);
        assert(kept_encs(s) =~= seq![
            AttrEnc { key: s[0].0, bytes: enc_str(s[0].0) + enc_value(s[0].1) },
        ] + kept_encs(rest));
        assert(kept_encs(s)[0].bytes == enc_str(s[0].0) + enc_value(s[0].1));
        assert(kept_encs(s).subrange(1, kept_encs(s).len() as int) =~= kept_encs(rest));
        assert(concat_encs(kept_encs(s)) =~= enc_attrs(s));
    }
}

/// On a well-formed node the wire attributes are the stored attributes:
/// they are already sorted and hold no skippable value.
pub proof fn lemma_wire_attrs_id(n: NodeView)
    requires
        wf_node(n),
    ensures
        enc_attrs_wire(n.attributes) == enc_attrs(n.attributes),
        kept_encs(n.attributes).len() == n.attributes.len(),
{
    let s = n.attributes;
    assert forall|i: int| 0 <= i < s.len() implies !skippable((#[trigger] s[i]).1) by {
        assert(wf_attr_value(s[i].1));
    }
    lemma_kept_encs_all(s);
    lemma_concat_kept(s);
    assert forall|i: int, j: int|
        0 <= i < j < kept_encs(s).len() implies key_le(
        (#[trigger] kept_encs(s)[i]).key,
        (#[trigger] kept_encs(s)[j]).key,
    ) by {
        assert(kept_encs(s)[i].key == s[i].0 && kept_encs(s)[j].key == s[j].0);
    }
    lemma_sort_encs_id(kept_encs(s));
}

/// A round-trippable node is encodable.
pub proof fn lemma_wf_node_enc(n: NodeView)
    requires
        wf_node(n),
    ensures
        wf_node_enc(n),
    decreases n,
{
    lemma_wire_attrs_id(n);
    match n.content {
        Some(v) => {
            match v {
                ValueView::List(ns) => {
                    lemma_wf_nodes_enc(ns);
                },
                _ => {},
            }
        },
        None => {},
    }
}

/// A sequence of round-trippable nodes is encodable.
pub proof fn lemma_wf_nodes_enc(ns: Seq<NodeView>)
    requires
        wf_nodes(ns),
    ensures
        wf_nodes_enc(ns),
    decreases ns,
{
    if ns.len() > 0 {
        lemma_wf_node_enc(ns[0]);
        lemma_wf_nodes_enc(ns.subrange(1, ns.len() as int));
    }
}

/// Encodability of a node sequence is elementwise.
pub proof fn lemma_wf_nodes_enc_elem(ns: Seq<NodeView>)
    ensures
        wf_nodes_enc(ns) <==> (forall|i: int|
            0 <= i < ns.len() ==> wf_node_enc(#[trigger] ns[i])),
    decreases ns.len(),
{
    if ns.len() > 0 {
        lemma_wf_nodes_enc_elem(ns.subrange(1, ns.len() as int));
        if wf_node_enc(ns[0]) && wf_nodes_enc(ns.subrange(1, ns.len() as int)) {
            assert forall|i: int| 0 <= i < ns.len() implies wf_node_enc(#[trigger] ns[i]) by {
                if i > 0 {
                    assert(ns.subrange(1, ns.len() as int)[i - 1] == ns[i]);
                }
            }
        }
        if forall|i: int| 0 <= i < ns.len() ==> wf_node_enc(#[trigger] ns[i]) {
            assert forall|i: int|
                0 <= i < ns.subrange(1, ns.len() as int).len() implies wf_node_enc(
                #[trigger] ns.subrange(1, ns.len() as int)[i],
            ) by {
                assert(ns.subrange(1, ns.len() as int)[i] == ns[i + 1]);
            }
        }
    }
}

/// Attribute images concatenate.
pub proof fn lemma_enc_attrs_append(a: Seq<(Seq<char>, ValueView)>, b: Seq<(Seq<char>, ValueView)>)
    ensures
        enc_attrs(a + b) == enc_attrs(a) + enc_attrs(b),
    decreases a.len(),
{
    if a.len() == 0 {
        assert(a + b =~= b);
        assert(enc_attrs(a) + enc_attrs(b) =~= enc_attrs(b));
    } else {
        assert((a + b)[0] == a[0]);
        assert((a + b).subrange(1, (a + b).len() as int) =~= a.subrange(1, a.len() as int) + b);
        lemma_enc_attrs_append(a.subrange(1, a.len() as int), b);
        assert(enc_attrs(a + b) =~= enc_attrs(a) + enc_attrs(b));
    }
}

/// Node-sequence images concatenate.
pub proof fn lemma_enc_nodes_append(a: Seq<NodeView>, b: Seq<NodeView>)
    ensures
        enc_nodes(a + b) == enc_nodes(a) + enc_nodes(b),
    decreases a.len(),
{
    if a.len() == 0 {
        assert(a + b =~= b);
        assert(enc_nodes(a) + enc_nodes(b) =~= enc_nodes(b));
    } else {
        assert((a + b)[0] == a[0]);
        assert((a + b).subrange(1, (a + b).len() as int) =~= a.subrange(1, a.len() as int) + b);
        lemma_enc_nodes_append(a.subrange(1, a.len() as int), b);
        assert(enc_nodes(a + b) =~= enc_nodes(a) + enc_nodes(b));
    }
}

/// One attribute's image.
pub proof fn lemma_enc_attrs_one(p: (Seq<char>, ValueView))
    ensures
        enc_attrs(seq![p]) == enc_str(p.0) + enc_value(p.1),
{
    assert(seq![p][0] == p);
    assert(seq![p].subrange(1, 1) =~= Seq::<(Seq<char>, ValueView)>::empty());
    assert(enc_attrs(Seq::<(Seq<char>, ValueView)>::empty()) == Seq::<u8>::empty());
    assert(enc_attrs(seq![p]) =~= enc_str(p.0) + enc_value(p.1));
}

/// One node's image within a sequence.
pub proof fn lemma_enc_nodes_one(n: NodeView)
    ensures
        enc_nodes(seq![n]) == enc_node(n),
{
    assert(seq![n][0] == n);
    assert(seq![n].subrange(1, 1) =~= Seq::<NodeView>::empty());
    assert(enc_nodes(Seq::<NodeView>::empty()) == Seq::<u8>::empty());
    assert(enc_nodes(seq![n]) =~= enc_node(n));
}

/// Well-formedness of a node sequence is elementwise.
pub proof fn lemma_wf_nodes(ns: Seq<NodeView>)
    ensures
        wf_nodes(ns) <==> (forall|i: int| 0 <= i < ns.len() ==> wf_node(#[trigger] ns[i])),
    decreases ns.len(),
{
    if ns.len() > 0 {
        lemma_wf_nodes(ns.subrange(1, ns.len() as int));
        if wf_node(ns[0]) && wf_nodes(ns.subrange(1, ns.len() as int)) {
            assert forall|i: int| 0 <= i < ns.len() implies wf_node(#[trigger] ns[i]) by {
                if i > 0 {
                    assert(ns.subrange(1, ns.len() as int)[i - 1] == ns[i]);
                }
            }
        }
        if forall|i: int| 0 <= i < ns.len() ==> wf_node(#[trigger] ns[i]) {
            assert forall|i: int|
                0 <= i < ns.subrange(1, ns.len() as int).len() implies wf_node(
                #[trigger] ns.subrange(1, ns.len() as int)[i],
            ) by {
                assert(ns.subrange(1, ns.len() as int)[i] == ns[i + 1]);
            }
        }
    }
}

} // verus!
