//! The tree codec: one JSON record per node, in pre-order, one record per
//! line. A record holds exactly the fields `parent` (a 20-byte array or
//! null), `children` (an array of 20-byte arrays for a directory, null for a
//! file), `hash` (a 20-byte array) and `path` (a string). Byte arrays are
//! JSON integer arrays; strings escape quotes, backslashes and control
//! characters, so a record never holds a raw line break.

use vstd::prelude::*;
use crate::hashing::{ObjectHash, hex_digit, chars_to_string};
use crate::merkle::{NodeModel, Object, Blob, Tree, models_of, lemma_models_of,
    lemma_children_wf};
use crate::builder::hashes_of;

verus! {

/// The decimal digits of a byte value, without leading zeros.
pub open spec fn dec_digits(n: u8) -> Seq<char> {
    if n < 10 {
        seq![hex_digit(n)]
    } else if n < 100 {
        seq![hex_digit(n / 10), hex_digit(n % 10)]
    } else {
        seq![hex_digit(n / 100), hex_digit((n / 10) % 10), hex_digit(n % 10)]
    }
}

/// The body of a JSON integer array: the values, comma-separated.
pub open spec fn bytes_inner(bs: Seq<u8>) -> Seq<char>
    decreases bs,
{
    if bs.len() == 0 {
        seq![]
    } else if bs.len() == 1 {
        dec_digits(bs[0])
    } else {
        dec_digits(bs[0]) + seq![','] + bytes_inner(bs.drop_first())
    }
}

/// A byte sequence as a JSON integer array.
pub open spec fn bytes_json(bs: Seq<u8>) -> Seq<char> {
    seq!['['] + bytes_inner(bs) + seq![']']
}

/// The body of a JSON array of integer arrays.
pub open spec fn arrays_inner(hs: Seq<Seq<u8>>) -> Seq<char>
    decreases hs,
{
    if hs.len() == 0 {
        seq![]
    } else if hs.len() == 1 {
        bytes_json(hs[0])
    } else {
        bytes_json(hs[0]) + seq![','] + arrays_inner(hs.drop_first())
    }
}

/// A sequence of byte sequences as a JSON array of integer arrays.
pub open spec fn arrays_json(hs: Seq<Seq<u8>>) -> Seq<char> {
    seq!['['] + arrays_inner(hs) + seq![']']
}

/// An optional byte sequence: `null` when absent.
pub open spec fn opt_bytes_json(p: Option<Seq<u8>>) -> Seq<char> {
    match p {
        Option::None => seq!['n', 'u', 'l', 'l'],
        Option::Some(bs) => bytes_json(bs),
    }
}

/// The JSON escape of one character: quotes and backslashes get a backslash,
/// control characters become `\u00XX`, and everything else stands as itself.
pub open spec fn escape_char(c: char) -> Seq<char> {
    if c == '"' {
        seq!['\\', '"']
    } else if c == '\\' {
        seq!['\\', '\\']
    } else if (c as u32) < 32 {
        seq!['\\', 'u', '0', '0', hex_digit((c as u32 / 16) as u8), hex_digit((c as u32 % 16) as u8)]
    } else {
        seq![c]
    }
}

/// The JSON escape of a string's characters.
pub open spec fn escape(s: Seq<char>) -> Seq<char>
    decreases s,
{
    if s.len() == 0 {
        seq![]
    } else {
        escape_char(s[0]) + escape(s.drop_first())
    }
}

/// The literal `{"parent":` that opens a record.
pub open spec fn lit_parent() -> Seq<char> {
    seq!['{', '"', 'p', 'a', 'r', 'e', 'n', 't', '"', ':']
}

/// The literal `,"children":`.
pub open spec fn lit_children() -> Seq<char> {
    seq![',', '"', 'c', 'h', 'i', 'l', 'd', 'r', 'e', 'n', '"', ':']
}

/// The literal `,"hash":`.
pub open spec fn lit_hash() -> Seq<char> {
    seq![',', '"', 'h', 'a', 's', 'h', '"', ':']
}

/// The literal `,"path":"` that opens the path string.
pub open spec fn lit_path() -> Seq<char> {
    seq![',', '"', 'p', 'a', 't', 'h', '"', ':', '"']
}

/// The literal `}` plus the line break that closes a record (the closing
/// quote of the path belongs to the string parser).
pub open spec fn lit_end() -> Seq<char> {
    seq!['}', '\n']
}

/// One record line: the node's parent, its children's hashes (null for a
/// file), its hash, and its path.
pub open spec fn line_for(
    parent: Option<Seq<u8>>,
    children: Option<Seq<Seq<u8>>>,
    hash: Seq<u8>,
    path: Seq<char>,
) -> Seq<char> {
    lit_parent() + opt_bytes_json(parent) + lit_children() + (match children {
        Option::None => seq!['n', 'u', 'l', 'l'],
        Option::Some(hs) => arrays_json(hs),
    }) + lit_hash() + bytes_json(hash) + lit_path() + escape(path) + seq!['"'] + lit_end()
}

/// The record line of one node.
pub open spec fn line_of(m: NodeModel) -> Seq<char> {
    match m {
        NodeModel::Blob { parent, hash, path } => line_for(parent, Option::None, hash, path),
        NodeModel::Tree { parent, hash, path, children } => line_for(
            parent,
            Option::Some(hashes_of(children)),
            hash,
            path,
        ),
    }
}

/// The whole linearization of a subtree: the node's record, then each child's
/// linearization, depth-first in child order.
pub open spec fn emit_obj(m: NodeModel) -> Seq<char>
    decreases m,
{
    match m {
        NodeModel::Blob { .. } => line_of(m),
        NodeModel::Tree { children, .. } => line_of(m) + emit_seq(children),
    }
}

/// The concatenated linearizations of a forest.
pub open spec fn emit_seq(ms: Seq<NodeModel>) -> Seq<char>
    decreases ms,
{
    if ms.len() == 0 {
        seq![]
    } else {
        emit_obj(ms[0]) + emit_seq(ms.drop_first())
    }
}

/// Append the decimal digits of `b`.
fn push_digits(out: &mut Vec<char>, b: u8)
    ensures
        final(out)@ == old(out)@ + dec_digits(b),
{
    if b >= 100 {
        out.push((48 + b / 100) as char);
    }
    if b >= 10 {
        out.push((48 + (b / 10) % 10) as char);
    }
    out.push((48 + b % 10) as char);
    proof {
        if b < 10 {
            assert(out@ =~= old(out)@ + dec_digits(b));
        } else if b < 100 {
            assert(b / 10 < 10);
            assert((b / 10) % 10 == b / 10);
            assert(out@ =~= old(out)@ + dec_digits(b));
        } else {
            assert(out@ =~= old(out)@ + dec_digits(b));
        }
    }
}

/// Append `hash` as a JSON integer array.
fn push_bytes_json(out: &mut Vec<char>, hash: &ObjectHash)
    ensures
        final(out)@ == old(out)@ + bytes_json(hash@),
{
    out.push('[');
    let n = hash.len();
    let mut i: usize = 0;
    while i < n
        invariant
            n == hash@.len(),
            i <= n,
            out@ == old(out)@ + seq!['['] + inner_prefix(hash@, i as int),
        decreases n - i,
    {
        if i > 0 {
            out.push(',');
        }
        push_digits(out, hash.byte_at(i));
        i = i + 1;
        proof {
            lemma_inner_prefix_step(hash@, i as int - 1);
            assert(out@ =~= old(out)@ + seq!['['] + inner_prefix(hash@, i as int));
        }
    }
    out.push(']');
    proof {
        lemma_inner_prefix_all(hash@);
        assert(out@ =~= old(out)@ + bytes_json(hash@));
    }
}

/// The comma-joined digits of the first `i` bytes, with a leading comma
/// question settled: the first element has none.
pub open spec fn inner_prefix(bs: Seq<u8>, i: int) -> Seq<char>
    decreases i,
{
    if i <= 0 {
        seq![]
    } else if i == 1 {
        dec_digits(bs[0])
    } else {
        inner_prefix(bs, i - 1) + seq![','] + dec_digits(bs[i - 1])
    }
}

/// One more byte extends the prefix by a comma and its digits.
proof fn lemma_inner_prefix_step(bs: Seq<u8>, i: int)
    requires
        0 <= i < bs.len(),
    ensures
        inner_prefix(bs, i + 1) == (if i == 0 {
            dec_digits(bs[0])
        } else {
            inner_prefix(bs, i) + seq![','] + dec_digits(bs[i])
        }),
{
}

/// The full prefix is the array body.
proof fn lemma_inner_prefix_all(bs: Seq<u8>)
    ensures
        inner_prefix(bs, bs.len() as int) == bytes_inner(bs),
    decreases bs.len(),
{
    lemma_inner_prefix_body(bs, bs.len() as int);
    assert(bs.take(bs.len() as int) =~= bs);
}

/// The prefix of `i` bytes matches the body of the first `i` bytes.
proof fn lemma_inner_prefix_body(bs: Seq<u8>, i: int)
    requires
        0 <= i <= bs.len(),
    ensures
        inner_prefix(bs, i) == bytes_inner(bs.take(i)),
    decreases i,
{
    if i == 0 {
        assert(bs.take(0) =~= Seq::<u8>::empty());
    } else if i == 1 {
        assert(bs.take(1) =~= seq![bs[0]]);
        assert(bytes_inner(seq![bs[0]]) == dec_digits(bs[0]));
    } else {
        lemma_inner_prefix_body(bs, i - 1);
        lemma_bytes_inner_push(bs.take(i - 1), bs[i - 1]);
        assert(bs.take(i) =~= bs.take(i - 1).push(bs[i - 1]));
    }
}

/// Appending a byte appends a comma and its digits (the first byte has no
/// comma).
proof fn lemma_bytes_inner_push(bs: Seq<u8>, b: u8)
    ensures
        bytes_inner(bs.push(b)) == (if bs.len() == 0 {
            dec_digits(b)
        } else {
            bytes_inner(bs) + seq![','] + dec_digits(b)
        }),
    decreases bs.len(),
{
    if bs.len() == 0 {
        assert(bs.push(b)[0] == b);
        assert(bytes_inner(bs.push(b)) == dec_digits(b));
    } else {
        assert(bs.push(b)[0] == bs[0]);
        assert(bs.push(b).drop_first() =~= bs.drop_first().push(b));
        lemma_bytes_inner_push(bs.drop_first(), b);
        if bs.len() == 1 {
            assert(bs.drop_first() =~= Seq::<u8>::empty());
            assert(bytes_inner(bs.push(b)) =~= bytes_inner(bs) + seq![','] + dec_digits(b));
        } else {
            assert(bytes_inner(bs.push(b)) =~= bytes_inner(bs) + seq![','] + dec_digits(b));
        }
    }
}


/// Appending a character appends its escape.
proof fn lemma_escape_push(s: Seq<char>, c: char)
    ensures
        escape(s.push(c)) == escape(s) + escape_char(c),
    decreases s.len(),
{
    if s.len() == 0 {
        assert(s.push(c)[0] == c);
        assert(s.push(c).drop_first() =~= Seq::<char>::empty());
        assert(escape(Seq::<char>::empty()) == Seq::<char>::empty());
        assert(escape(s.push(c)) =~= escape(s) + escape_char(c));
    } else {
        assert(s.push(c)[0] == s[0]);
        assert(s.push(c).drop_first() =~= s.drop_first().push(c));
        lemma_escape_push(s.drop_first(), c);
        assert(escape(s.push(c)) =~= escape(s) + escape_char(c));
    }
}

/// Append the JSON escape of `s`.
pub(crate) fn push_escaped(out: &mut Vec<char>, s: &str)
    ensures
        final(out)@ == old(out)@ + escape(s@),
{
    let n = s.unicode_len();
    let mut i: usize = 0;
    proof {
        assert(s@.take(0) =~= Seq::<char>::empty());
        assert(escape(Seq::<char>::empty()) == Seq::<char>::empty());
        assert(out@ =~= old(out)@ + escape(s@.take(0)));
    }
    while i < n
        invariant
            n == s@.len(),
            i <= n,
            out@ == old(out)@ + escape(s@.take(i as int)),
        decreases n - i,
    {
        let c = s.get_char(i);
        if c == '"' {
            out.push('\\');
            out.push('"');
        } else if c == '\\' {
            out.push('\\');
            out.push('\\');
        } else if (c as u32) < 32 {
            out.push('\\');
            out.push('u');
            out.push('0');
            out.push('0');
            let v = c as u32;
            let hi = (v / 16) as u8;
            let lo = (v % 16) as u8;
            let hi_c: char = if hi < 10 {
                (48 + hi) as char
            } else {
                (87 + hi) as char
            };
            let lo_c: char = if lo < 10 {
                (48 + lo) as char
            } else {
                (87 + lo) as char
            };
            out.push(hi_c);
            out.push(lo_c);
        } else {
            out.push(c);
        }
        i = i + 1;
        proof {
            assert(s@.take(i as int) =~= s@.take(i as int - 1).push(s@[i as int - 1]));
            lemma_escape_push(s@.take(i as int - 1), s@[i as int - 1]);
            assert(out@ =~= old(out)@ + escape(s@.take(i as int)));
        }
    }
    proof {
        assert(s@.take(n as int) =~= s@);
    }
}

/// Append the literal `{"parent":`.
fn push_lit_parent(out: &mut Vec<char>)
    ensures
        final(out)@ == old(out)@ + lit_parent(),
{
    out.push('{');
    out.push('"');
    out.push('p');
    out.push('a');
    out.push('r');
    out.push('e');
    out.push('n');
    out.push('t');
    out.push('"');
    out.push(':');
    proof {
        assert(out@ =~= old(out)@ + lit_parent());
    }
}

/// Append the literal `,"children":`.
fn push_lit_children(out: &mut Vec<char>)
    ensures
        final(out)@ == old(out)@ + lit_children(),
{
    out.push(',');
    out.push('"');
    out.push('c');
    out.push('h');
    out.push('i');
    out.push('l');
    out.push('d');
    out.push('r');
    out.push('e');
    out.push('n');
    out.push('"');
    out.push(':');
    proof {
        assert(out@ =~= old(out)@ + lit_children());
    }
}

/// Append the literal `,"hash":`.
fn push_lit_hash(out: &mut Vec<char>)
    ensures
        final(out)@ == old(out)@ + lit_hash(),
{
    out.push(',');
    out.push('"');
    out.push('h');
    out.push('a');
    out.push('s');
    out.push('h');
    out.push('"');
    out.push(':');
    proof {
        assert(out@ =~= old(out)@ + lit_hash());
    }
}

/// Append the literal `,"path":"`.
fn push_lit_path(out: &mut Vec<char>)
    ensures
        final(out)@ == old(out)@ + lit_path(),
{
    out.push(',');
    out.push('"');
    out.push('p');
    out.push('a');
    out.push('t');
    out.push('h');
    out.push('"');
    out.push(':');
    out.push('"');
    proof {
        assert(out@ =~= old(out)@ + lit_path());
    }
}

/// Append `null`.
fn push_null(out: &mut Vec<char>)
    ensures
        final(out)@ == old(out)@ + seq!['n', 'u', 'l', 'l'],
{
    out.push('n');
    out.push('u');
    out.push('l');
    out.push('l');
    proof {
        assert(out@ =~= old(out)@ + seq!['n', 'u', 'l', 'l']);
    }
}

/// Append an optional hash: `null` when absent.
fn push_opt_hash(out: &mut Vec<char>, p: &Option<ObjectHash>)
    ensures
        final(out)@ == old(out)@ + opt_bytes_json(crate::merkle::opt_hash_view(*p)),
{
    match p {
        Option::None => push_null(out),
        Option::Some(h) => push_bytes_json(out, h),
    }
}

/// The comma-joined arrays of the first `i` hashes.
pub open spec fn arrays_prefix(hs: Seq<Seq<u8>>, i: int) -> Seq<char>
    decreases i,
{
    if i <= 0 {
        seq![]
    } else if i == 1 {
        bytes_json(hs[0])
    } else {
        arrays_prefix(hs, i - 1) + seq![','] + bytes_json(hs[i - 1])
    }
}

/// The prefix of `i` hashes matches the body of the first `i` hashes.
proof fn lemma_arrays_prefix_body(hs: Seq<Seq<u8>>, i: int)
    requires
        0 <= i <= hs.len(),
    ensures
        arrays_prefix(hs, i) == arrays_inner(hs.take(i)),
    decreases i,
{
    if i == 0 {
        assert(hs.take(0) =~= Seq::<Seq<u8>>::empty());
    } else if i == 1 {
        assert(hs.take(1) =~= seq![hs[0]]);
        assert(arrays_inner(seq![hs[0]]) == bytes_json(hs[0]));
    } else {
        lemma_arrays_prefix_body(hs, i - 1);
        lemma_arrays_inner_push(hs.take(i - 1), hs[i - 1]);
        assert(hs.take(i) =~= hs.take(i - 1).push(hs[i - 1]));
    }
}

/// Appending a hash appends a comma and its array (the first has no comma).
proof fn lemma_arrays_inner_push(hs: Seq<Seq<u8>>, h: Seq<u8>)
    ensures
        arrays_inner(hs.push(h)) == (if hs.len() == 0 {
            bytes_json(h)
        } else {
            arrays_inner(hs) + seq![','] + bytes_json(h)
        }),
    decreases hs.len(),
{
    if hs.len() == 0 {
        assert(hs.push(h)[0] == h);
        assert(arrays_inner(hs.push(h)) == bytes_json(h));
    } else {
        assert(hs.push(h)[0] == hs[0]);
        assert(hs.push(h).drop_first() =~= hs.drop_first().push(h));
        lemma_arrays_inner_push(hs.drop_first(), h);
        if hs.len() == 1 {
            assert(hs.drop_first() =~= Seq::<Seq<u8>>::empty());
            assert(arrays_inner(hs.push(h)) =~= arrays_inner(hs) + seq![','] + bytes_json(h));
        } else {
            assert(arrays_inner(hs.push(h)) =~= arrays_inner(hs) + seq![','] + bytes_json(h));
        }
    }
}

/// Append the children's hashes as a JSON array of integer arrays.
fn push_children_hashes(out: &mut Vec<char>, children: &Vec<Object>)
    ensures
        final(out)@ == old(out)@ + arrays_json(hashes_of(models_of(children@))),
{
    let ghost ms = models_of(children@);
    proof {
        lemma_models_of(children@);
    }
    out.push('[');
    let mut i: usize = 0;
    proof {
        assert(out@ =~= old(out)@ + seq!['['] + arrays_prefix(hashes_of(ms), 0));
    }
    while i < children.len()
        invariant
            i <= children@.len(),
            ms == models_of(children@),
            ms.len() == children@.len(),
            forall|j: int| 0 <= j < children@.len() ==> ms[j] == #[trigger] children@[j].model(),
            out@ == old(out)@ + seq!['['] + arrays_prefix(hashes_of(ms), i as int),
        decreases children@.len() - i,
    {
        if i > 0 {
            out.push(',');
        }
        let h = children[i].hash_ref();
        push_bytes_json(out, h);
        i = i + 1;
        proof {
            lemma_hashes_of_take(ms, i as int);
            assert(out@ =~= old(out)@ + seq!['['] + arrays_prefix(hashes_of(ms), i as int));
        }
    }
    out.push(']');
    proof {
        lemma_hashes_of_len(ms);
        lemma_arrays_prefix_body(hashes_of(ms), ms.len() as int);
        assert(hashes_of(ms).take(ms.len() as int) =~= hashes_of(ms));
        assert(out@ =~= old(out)@ + arrays_json(hashes_of(ms)));
    }
}

/// `hashes_of` maps each node to its hash, position by position.
pub proof fn lemma_hashes_of_len(ms: Seq<NodeModel>)
    ensures
        hashes_of(ms).len() == ms.len(),
        forall|i: int| 0 <= i < ms.len() ==> hashes_of(ms)[i] == (#[trigger] ms[i]).hash(),
    decreases ms.len(),
{
    if ms.len() > 0 {
        lemma_hashes_of_len(ms.drop_first());
        assert forall|i: int| 0 <= i < ms.len() implies hashes_of(ms)[i] == (
        #[trigger] ms[i]).hash() by {
            if i > 0 {
                assert(ms.drop_first()[i - 1] == ms[i]);
                assert(hashes_of(ms)[i] == hashes_of(ms.drop_first())[i - 1]);
            }
        }
    }
}

/// One more hash extends the prefix.
proof fn lemma_hashes_of_take(ms: Seq<NodeModel>, i: int)
    requires
        0 < i <= ms.len(),
    ensures
        arrays_prefix(hashes_of(ms), i) == (if i == 1 {
            bytes_json(ms[0].hash())
        } else {
            arrays_prefix(hashes_of(ms), i - 1) + seq![','] + bytes_json(ms[i - 1].hash())
        }),
{
    lemma_hashes_of_len(ms);
}

/// Append one record line for a node with the given fields.
fn push_line(
    out: &mut Vec<char>,
    parent: &Option<ObjectHash>,
    children: Option<&Vec<Object>>,
    hash: &ObjectHash,
    path: &str,
)
    ensures
        final(out)@ == old(out)@ + line_for(
            crate::merkle::opt_hash_view(*parent),
            match children {
                Option::None => Option::None,
                Option::Some(cs) => Option::Some(hashes_of(models_of(cs@))),
            },
            hash@,
            path@,
        ),
{
    push_lit_parent(out);
    push_opt_hash(out, parent);
    push_lit_children(out);
    match children {
        Option::None => push_null(out),
        Option::Some(cs) => push_children_hashes(out, cs),
    }
    push_lit_hash(out);
    push_bytes_json(out, hash);
    push_lit_path(out);
    push_escaped(out, path);
    out.push('"');
    out.push('}');
    out.push('\n');
    proof {
        assert(out@ =~= old(out)@ + line_for(
            crate::merkle::opt_hash_view(*parent),
            match children {
                Option::None => Option::<Seq<Seq<u8>>>::None,
                Option::Some(cs) => Option::Some(hashes_of(models_of(cs@))),
            },
            hash@,
            path@,
        ));
    }
}

impl Blob {
    /// The record line of this file, ending in a line break.
    pub fn json_for_obj(&self) -> (r: String)
        ensures
            r@ == emit_obj(self.model()),
    {
        let mut out: Vec<char> = Vec::new();
        push_line(&mut out, &self.parent, Option::None, &self.hash, self.path.as_str());
        proof {
            assert(out@ =~= emit_obj(self.model()));
        }
        chars_to_string(&out)
    }
}

impl Tree {
    /// The record line of this directory alone, ending in a line break.
    pub fn json_for_node(&self) -> (r: String)
        ensures
            r@ == line_of(self.model()),
    {
        let mut out: Vec<char> = Vec::new();
        push_line(
            &mut out,
            &self.parent,
            Option::Some(&self.children),
            &self.hash,
            self.path.as_str(),
        );
        proof {
            assert(out@ =~= line_of(self.model()));
        }
        chars_to_string(&out)
    }

    /// Append the whole linearization of this directory.
    fn push_tree(&self, out: &mut Vec<char>)
        ensures
            final(out)@ == old(out)@ + emit_obj(self.model()),
        decreases self,
    {
        push_line(out, &self.parent, Option::Some(&self.children), &self.hash, self.path.as_str());
        let ghost ms = models_of(self.children@);
        let ghost base = out@;
        proof {
            lemma_models_of(self.children@);
            assert(emit_seq(ms.take(0)) == Seq::<char>::empty()) by {
                assert(ms.take(0) =~= Seq::<NodeModel>::empty());
            }
            assert(out@ =~= base + emit_seq(ms.take(0)));
        }
        let mut i: usize = 0;
        while i < self.children.len()
            invariant
                i <= self.children@.len(),
                ms == models_of(self.children@),
                ms.len() == self.children@.len(),
                forall|j: int|
                    0 <= j < self.children@.len() ==> ms[j] == #[trigger] self.children@[j].model(),
                out@ == base + emit_seq(ms.take(i as int)),
                base == old(out)@ + line_of(self.model()),
            decreases self.children@.len() - i,
        {
            self.children[i].push_obj(out);
            i = i + 1;
            proof {
                assert(ms.take(i as int) =~= ms.take(i as int - 1).push(ms[i as int - 1]));
                lemma_emit_seq_push(ms.take(i as int - 1), ms[i as int - 1]);
                assert(out@ =~= base + emit_seq(ms.take(i as int)));
            }
        }
        proof {
            assert(ms.take(ms.len() as int) =~= ms);
            assert(out@ =~= old(out)@ + emit_obj(self.model()));
        }
    }

    /// The whole linearization of this directory: its record, then each
    /// child's, depth-first in child order.
    pub fn json_for_obj(&self) -> (r: String)
        ensures
            r@ == emit_obj(self.model()),
    {
        let mut out: Vec<char> = Vec::new();
        self.push_tree(&mut out);
        chars_to_string(&out)
    }
}

impl Object {
    /// Append the whole linearization of this object.
    fn push_obj(&self, out: &mut Vec<char>)
        ensures
            final(out)@ == old(out)@ + emit_obj(self.model()),
        decreases self,
    {
        match self {
            Object::Tree(t) => t.push_tree(out),
            Object::Blob(b) => {
                push_line(out, &b.parent, Option::None, &b.hash, b.path.as_str());
            },
        }
    }

    /// The linearization of this object as a string.
    pub fn json_for_obj(&self) -> (r: String)
        ensures
            r@ == emit_obj(self.model()),
    {
        let mut out: Vec<char> = Vec::new();
        self.push_obj(&mut out);
        chars_to_string(&out)
    }
}

/// Appending a subtree appends its linearization.
pub proof fn lemma_emit_seq_push(ms: Seq<NodeModel>, m: NodeModel)
    ensures
        emit_seq(ms.push(m)) == emit_seq(ms) + emit_obj(m),
    decreases ms.len(),
{
    if ms.len() == 0 {
        assert(ms.push(m)[0] == m);
        assert(ms.push(m).drop_first() =~= Seq::<NodeModel>::empty());
        assert(emit_seq(Seq::<NodeModel>::empty()) == Seq::<char>::empty());
        assert(emit_seq(ms.push(m)) =~= emit_seq(ms) + emit_obj(m));
    } else {
        assert(ms.push(m)[0] == ms[0]);
        assert(ms.push(m).drop_first() =~= ms.drop_first().push(m));
        lemma_emit_seq_push(ms.drop_first(), m);
        assert(emit_seq(ms.push(m)) =~= emit_seq(ms) + emit_obj(m));
    }
}


/// Whether `c` is a decimal digit.
pub open spec fn is_digit(c: char) -> bool {
    48 <= c as u32 <= 57
}

/// The value of a decimal digit.
pub open spec fn digit_val(c: char) -> int {
    c as u32 - 48
}

/// The value of a lowercase hex digit, or -1.
pub open spec fn hex_val(c: char) -> int {
    if 48 <= c as u32 <= 57 {
        c as u32 - 48
    } else if 97 <= c as u32 <= 102 {
        c as u32 - 87
    } else {
        -1
    }
}

/// Strip an expected literal off the front of the input.
pub open spec fn parse_lit(s: Seq<char>, lit: Seq<char>) -> Option<Seq<char>> {
    if lit.len() <= s.len() && s.take(lit.len() as int) == lit {
        Option::Some(s.skip(lit.len() as int))
    } else {
        Option::None
    }
}

/// Read a decimal byte value: one to three digits, at most 255.
pub open spec fn parse_u8(s: Seq<char>) -> Option<(u8, Seq<char>)> {
    if s.len() >= 1 && is_digit(s[0]) {
        let d0 = digit_val(s[0]);
        if s.len() >= 2 && is_digit(s[1]) {
            let d1 = digit_val(s[1]);
            if s.len() >= 3 && is_digit(s[2]) {
                let v = d0 * 100 + d1 * 10 + digit_val(s[2]);
                if v <= 255 {
                    Option::Some((v as u8, s.skip(3)))
                } else {
                    Option::None
                }
            } else {
                Option::Some(((d0 * 10 + d1) as u8, s.skip(2)))
            }
        } else {
            Option::Some((d0 as u8, s.skip(1)))
        }
    } else {
        Option::None
    }
}

/// Read the rest of a non-empty integer array, after the opening bracket:
/// values separated by commas, closed by a bracket.
pub open spec fn parse_bytes_rest(s: Seq<char>) -> Option<(Seq<u8>, Seq<char>)>
    decreases s.len(),
{
    match parse_u8(s) {
        Option::None => Option::None,
        Option::Some((b, r)) => {
            if r.len() >= 1 && r[0] == ',' {
                if r.len() < s.len() {
                    match parse_bytes_rest(r.skip(1)) {
                        Option::None => Option::None,
                        Option::Some((bs, r2)) => Option::Some((seq![b] + bs, r2)),
                    }
                } else {
                    Option::None
                }
            } else if r.len() >= 1 && r[0] == ']' {
                Option::Some((seq![b], r.skip(1)))
            } else {
                Option::None
            }
        },
    }
}

/// Read a JSON integer array.
pub open spec fn parse_bytes(s: Seq<char>) -> Option<(Seq<u8>, Seq<char>)> {
    if s.len() >= 2 && s[0] == '[' && s[1] == ']' {
        Option::Some((seq![], s.skip(2)))
    } else if s.len() >= 1 && s[0] == '[' {
        parse_bytes_rest(s.skip(1))
    } else {
        Option::None
    }
}

/// Read `null` or a JSON integer array.
pub open spec fn parse_opt_bytes(s: Seq<char>) -> Option<(Option<Seq<u8>>, Seq<char>)> {
    if s.len() >= 4 && s[0] == 'n' && s[1] == 'u' && s[2] == 'l' && s[3] == 'l' {
        Option::Some((Option::None, s.skip(4)))
    } else {
        match parse_bytes(s) {
            Option::None => Option::None,
            Option::Some((bs, r)) => Option::Some((Option::Some(bs), r)),
        }
    }
}

/// Read the rest of a non-empty array of integer arrays.
pub open spec fn parse_arrays_rest(s: Seq<char>) -> Option<(Seq<Seq<u8>>, Seq<char>)>
    decreases s.len(),
{
    match parse_bytes(s) {
        Option::None => Option::None,
        Option::Some((b, r)) => {
            if r.len() >= 1 && r[0] == ',' {
                if r.len() < s.len() {
                    match parse_arrays_rest(r.skip(1)) {
                        Option::None => Option::None,
                        Option::Some((bs, r2)) => Option::Some((seq![b] + bs, r2)),
                    }
                } else {
                    Option::None
                }
            } else if r.len() >= 1 && r[0] == ']' {
                Option::Some((seq![b], r.skip(1)))
            } else {
                Option::None
            }
        },
    }
}

/// Read a JSON array of integer arrays.
pub open spec fn parse_arrays(s: Seq<char>) -> Option<(Seq<Seq<u8>>, Seq<char>)> {
    if s.len() >= 2 && s[0] == '[' && s[1] == ']' {
        Option::Some((seq![], s.skip(2)))
    } else if s.len() >= 1 && s[0] == '[' {
        parse_arrays_rest(s.skip(1))
    } else {
        Option::None
    }
}

/// Read `null` or a JSON array of integer arrays.
pub open spec fn parse_opt_arrays(s: Seq<char>) -> Option<(Option<Seq<Seq<u8>>>, Seq<char>)> {
    if s.len() >= 4 && s[0] == 'n' && s[1] == 'u' && s[2] == 'l' && s[3] == 'l' {
        Option::Some((Option::None, s.skip(4)))
    } else {
        match parse_arrays(s) {
            Option::None => Option::None,
            Option::Some((hs, r)) => Option::Some((Option::Some(hs), r)),
        }
    }
}

/// Read the characters of a string up to and including the closing quote,
/// undoing the JSON escapes the emitter writes.
pub open spec fn parse_string(s: Seq<char>) -> Option<(Seq<char>, Seq<char>)>
    decreases s.len(),
{
    if s.len() == 0 {
        Option::None
    } else if s[0] == '"' {
        Option::Some((seq![], s.skip(1)))
    } else if s[0] == '\\' {
        if s.len() >= 2 && (s[1] == '"' || s[1] == '\\') {
            match parse_string(s.skip(2)) {
                Option::None => Option::None,
                Option::Some((p, r)) => Option::Some((seq![s[1]] + p, r)),
            }
        } else if s.len() >= 6 && s[1] == 'u' && s[2] == '0' && s[3] == '0' && hex_val(s[4]) >= 0
            && hex_val(s[5]) >= 0 {
            let v = hex_val(s[4]) * 16 + hex_val(s[5]);
            if v < 32 {
                match parse_string(s.skip(6)) {
                    Option::None => Option::None,
                    Option::Some((p, r)) => Option::Some((seq![(v as u32) as char] + p, r)),
                }
            } else {
                Option::None
            }
        } else {
            Option::None
        }
    } else if (s[0] as u32) < 32 {
        Option::None
    } else {
        match parse_string(s.skip(1)) {
            Option::None => Option::None,
            Option::Some((p, r)) => Option::Some((seq![s[0]] + p, r)),
        }
    }
}

/// Every hash in the sequence has the 20-byte width.
pub open spec fn all_len20(hs: Seq<Seq<u8>>) -> bool {
    forall|i: int| 0 <= i < hs.len() ==> (#[trigger] hs[i]).len() == 20
}

/// Read one record line: its parent, children hashes, hash and path fields.
pub open spec fn parse_line(s: Seq<char>) -> Option<
    ((Option<Seq<u8>>, Option<Seq<Seq<u8>>>, Seq<u8>, Seq<char>), Seq<char>),
> {
    match parse_lit(s, lit_parent()) {
        Option::None => Option::None,
        Option::Some(s1) => match parse_opt_bytes(s1) {
            Option::None => Option::None,
            Option::Some((parent, s2)) => {
                if (parent is Some ==> parent->0.len() == 20) {
                    match parse_lit(s2, lit_children()) {
                        Option::None => Option::None,
                        Option::Some(s3) => match parse_opt_arrays(s3) {
                            Option::None => Option::None,
                            Option::Some((children, s4)) => {
                                if (children is Some ==> all_len20(children->0)) {
                                    match parse_lit(s4, lit_hash()) {
                                        Option::None => Option::None,
                                        Option::Some(s5) => match parse_bytes(s5) {
                                            Option::None => Option::None,
                                            Option::Some((hash, s6)) => {
                                                if hash.len() == 20 {
                                                    match parse_lit(s6, lit_path()) {
                                                        Option::None => Option::None,
                                                        Option::Some(s7) => match parse_string(s7) {
                                                            Option::None => Option::None,
                                                            Option::Some((path, s8)) => match parse_lit(
                                                                s8,
                                                                lit_end(),
                                                            ) {
                                                                Option::None => Option::None,
                                                                Option::Some(s9) => Option::Some(
                                                                    ((parent, children, hash, path), s9),
                                                                ),
                                                            },
                                                        },
                                                    }
                                                } else {
                                                    Option::None
                                                }
                                            },
                                        },
                                    }
                                } else {
                                    Option::None
                                }
                            },
                        },
                    }
                } else {
                    Option::None
                }
            },
        },
    }
}

/// Read one node: its record line, then one subtree per declared child hash.
pub open spec fn parse_node(s: Seq<char>) -> Option<(NodeModel, Seq<char>)>
    decreases s.len(), 0int,
{
    match parse_line(s) {
        Option::None => Option::None,
        Option::Some(((parent, children, hash, path), s9)) => match children {
            Option::None => Option::Some((NodeModel::Blob { parent, hash, path }, s9)),
            Option::Some(hs) => {
                if s9.len() < s.len() {
                    match parse_children(hs.len(), s9) {
                        Option::None => Option::None,
                        Option::Some((kids, rest)) => Option::Some(
                            (NodeModel::Tree { parent, hash, path, children: kids }, rest),
                        ),
                    }
                } else {
                    Option::None
                }
            },
        },
    }
}

/// Read `n` nodes in a row.
pub open spec fn parse_children(n: nat, s: Seq<char>) -> Option<(Seq<NodeModel>, Seq<char>)>
    decreases s.len(), 1int,
{
    if n == 0 {
        Option::Some((seq![], s))
    } else {
        match parse_node(s) {
            Option::None => Option::None,
            Option::Some((m, r)) => {
                if r.len() < s.len() {
                    match parse_children((n - 1) as nat, r) {
                        Option::None => Option::None,
                        Option::Some((ms, r2)) => Option::Some((seq![m] + ms, r2)),
                    }
                } else {
                    Option::None
                }
            },
        }
    }
}

/// Load a whole tree from a linearization: the first record must be a
/// directory; trailing input is ignored.
pub open spec fn spec_load(s: Seq<char>) -> Option<NodeModel> {
    match parse_node(s) {
        Option::None => Option::None,
        Option::Some((m, _)) => {
            if m is Tree {
                Option::Some(m)
            } else {
                Option::None
            }
        },
    }
}


/// A literal strips off what the emitter wrote.
proof fn lemma_parse_lit(lit: Seq<char>, rest: Seq<char>)
    ensures
        parse_lit(lit + rest, lit) == Option::Some(rest),
{
    let s = lit + rest;
    assert(s.take(lit.len() as int) =~= lit);
    assert(s.skip(lit.len() as int) =~= rest);
}

/// Reading a byte's decimal digits yields the byte back, when nothing
/// digit-like follows.
proof fn lemma_parse_u8(b: u8, rest: Seq<char>)
    requires
        rest.len() == 0 || !is_digit(rest[0]),
    ensures
        parse_u8(dec_digits(b) + rest) == Option::Some((b, rest)),
{
    let s = dec_digits(b) + rest;
    if b < 10 {
        assert(s[0] == hex_digit(b));
        assert(digit_val(hex_digit(b)) == b);
        if s.len() >= 2 {
            assert(s[1] == rest[0]);
        }
        assert(s.skip(1) =~= rest);
    } else if b < 100 {
        assert(s[0] == hex_digit(b / 10));
        assert(s[1] == hex_digit(b % 10));
        assert(digit_val(hex_digit(b / 10)) == b / 10);
        assert(digit_val(hex_digit(b % 10)) == b % 10);
        assert((b / 10) * 10 + (b % 10) == b);
        if s.len() >= 3 {
            assert(s[2] == rest[0]);
        }
        assert(s.skip(2) =~= rest);
    } else {
        assert(s[0] == hex_digit(b / 100));
        assert(s[1] == hex_digit((b / 10) % 10));
        assert(s[2] == hex_digit(b % 100 % 10));
        assert(b % 100 % 10 == b % 10);
        assert(digit_val(hex_digit(b / 100)) == b / 100);
        assert(digit_val(hex_digit((b / 10) % 10)) == (b / 10) % 10);
        assert(digit_val(hex_digit(b % 10)) == b % 10);
        assert((b / 100) * 100 + ((b / 10) % 10) * 10 + (b % 10) == b);
        assert(s.skip(3) =~= rest);
    }
}

/// Reading an emitted array body plus closing bracket yields the bytes back.
proof fn lemma_parse_bytes_rest(bs: Seq<u8>, rest: Seq<char>)
    requires
        bs.len() >= 1,
    ensures
        parse_bytes_rest(bytes_inner(bs) + seq![']'] + rest) == Option::Some((bs, rest)),
    decreases bs.len(),
{
    let s = bytes_inner(bs) + seq![']'] + rest;
    if bs.len() == 1 {
        let tail = seq![']'] + rest;
        assert(s =~= dec_digits(bs[0]) + tail);
        assert(!is_digit(tail[0]));
        lemma_parse_u8(bs[0], tail);
        assert(tail.skip(1) =~= rest);
        assert(seq![bs[0]] =~= bs);
    } else {
        let tail = seq![','] + bytes_inner(bs.drop_first()) + seq![']'] + rest;
        assert(s =~= dec_digits(bs[0]) + tail);
        assert(!is_digit(tail[0]));
        lemma_parse_u8(bs[0], tail);
        assert(tail[0] == ',');
        assert(tail.len() < s.len());
        assert(tail.skip(1) =~= bytes_inner(bs.drop_first()) + seq![']'] + rest);
        lemma_parse_bytes_rest(bs.drop_first(), rest);
        assert(seq![bs[0]] + bs.drop_first() =~= bs);
    }
}

/// Reading an emitted integer array yields the bytes back.
proof fn lemma_parse_bytes(bs: Seq<u8>, rest: Seq<char>)
    ensures
        parse_bytes(bytes_json(bs) + rest) == Option::Some((bs, rest)),
{
    let s = bytes_json(bs) + rest;
    assert(s[0] == '[');
    if bs.len() == 0 {
        assert(bytes_inner(bs) == Seq::<char>::empty());
        assert(s[1] == ']');
        assert(s.skip(2) =~= rest);
        assert(bs =~= Seq::<u8>::empty());
    } else {
        assert(bytes_inner(bs).len() >= 1);
        assert(s[1] == bytes_inner(bs)[0]);
        assert(bytes_inner(bs)[0] == dec_digits(bs[0])[0]);
        assert(is_digit(dec_digits(bs[0])[0])) by {
            if bs[0] < 10 {
            } else if bs[0] < 100 {
            } else {
            }
        }
        assert(s[1] != ']');
        assert(s.skip(1) =~= bytes_inner(bs) + seq![']'] + rest);
        lemma_parse_bytes_rest(bs, rest);
    }
}

/// Reading an emitted optional array yields the option back.
proof fn lemma_parse_opt_bytes(p: Option<Seq<u8>>, rest: Seq<char>)
    ensures
        parse_opt_bytes(opt_bytes_json(p) + rest) == Option::Some((p, rest)),
{
    let s = opt_bytes_json(p) + rest;
    match p {
        Option::None => {
            assert(s[0] == 'n');
            assert(s[1] == 'u');
            assert(s[2] == 'l');
            assert(s[3] == 'l');
            assert(s.skip(4) =~= rest);
        },
        Option::Some(bs) => {
            assert(s[0] == '[');
            lemma_parse_bytes(bs, rest);
        },
    }
}

/// Reading an emitted array-of-arrays body yields the hashes back.
proof fn lemma_parse_arrays_rest(hs: Seq<Seq<u8>>, rest: Seq<char>)
    requires
        hs.len() >= 1,
    ensures
        parse_arrays_rest(arrays_inner(hs) + seq![']'] + rest) == Option::Some((hs, rest)),
    decreases hs.len(),
{
    let s = arrays_inner(hs) + seq![']'] + rest;
    if hs.len() == 1 {
        let tail = seq![']'] + rest;
        assert(s =~= bytes_json(hs[0]) + tail);
        lemma_parse_bytes(hs[0], tail);
        assert(tail.skip(1) =~= rest);
        assert(seq![hs[0]] =~= hs);
    } else {
        let tail = seq![','] + arrays_inner(hs.drop_first()) + seq![']'] + rest;
        assert(s =~= bytes_json(hs[0]) + tail);
        lemma_parse_bytes(hs[0], tail);
        assert(tail[0] == ',');
        assert(bytes_json(hs[0]).len() >= 2);
        assert(tail.len() < s.len());
        assert(tail.skip(1) =~= arrays_inner(hs.drop_first()) + seq![']'] + rest);
        lemma_parse_arrays_rest(hs.drop_first(), rest);
        assert(seq![hs[0]] + hs.drop_first() =~= hs);
    }
}

/// Reading an emitted array of integer arrays yields the hashes back.
proof fn lemma_parse_arrays(hs: Seq<Seq<u8>>, rest: Seq<char>)
    ensures
        parse_arrays(arrays_json(hs) + rest) == Option::Some((hs, rest)),
{
    let s = arrays_json(hs) + rest;
    assert(s[0] == '[');
    if hs.len() == 0 {
        assert(arrays_inner(hs) == Seq::<char>::empty());
        assert(s[1] == ']');
        assert(s.skip(2) =~= rest);
        assert(hs =~= Seq::<Seq<u8>>::empty());
    } else {
        assert(arrays_inner(hs).len() >= 1);
        assert(s[1] == arrays_inner(hs)[0]);
        assert(arrays_inner(hs)[0] == bytes_json(hs[0])[0]);
        assert(bytes_json(hs[0])[0] == '[');
        assert(s[1] != ']');
        assert(s.skip(1) =~= arrays_inner(hs) + seq![']'] + rest);
        lemma_parse_arrays_rest(hs, rest);
    }
}

/// Reading an emitted optional array of arrays yields the option back.
proof fn lemma_parse_opt_arrays(p: Option<Seq<Seq<u8>>>, rest: Seq<char>)
    ensures
        parse_opt_arrays((match p {
            Option::None => seq!['n', 'u', 'l', 'l'],
            Option::Some(hs) => arrays_json(hs),
        }) + rest) == Option::Some((p, rest)),
{
    match p {
        Option::None => {
            let s = seq!['n', 'u', 'l', 'l'] + rest;
            assert(s[0] == 'n');
            assert(s[1] == 'u');
            assert(s[2] == 'l');
            assert(s[3] == 'l');
            assert(s.skip(4) =~= rest);
        },
        Option::Some(hs) => {
            let s = arrays_json(hs) + rest;
            assert(s[0] == '[');
            lemma_parse_arrays(hs, rest);
        },
    }
}

/// Reading an escaped string plus its closing quote yields the characters
/// back.
pub(crate) proof fn lemma_parse_string(p: Seq<char>, rest: Seq<char>)
    ensures
        parse_string(escape(p) + seq!['"'] + rest) == Option::Some((p, rest)),
    decreases p.len(),
{
    let s = escape(p) + seq!['"'] + rest;
    if p.len() == 0 {
        assert(escape(p) == Seq::<char>::empty());
        assert(s[0] == '"');
        assert(s.skip(1) =~= rest);
        assert(p =~= Seq::<char>::empty());
    } else {
        let c = p[0];
        let tail = escape(p.drop_first()) + seq!['"'] + rest;
        assert(s =~= escape_char(c) + tail);
        lemma_parse_string(p.drop_first(), rest);
        if c == '"' {
            assert(s[0] == '\\');
            assert(s[1] == '"');
            assert(s.skip(2) =~= tail);
            assert(seq![c] + p.drop_first() =~= p);
        } else if c == '\\' {
            assert(s[0] == '\\');
            assert(s[1] == '\\');
            assert(s.skip(2) =~= tail);
            assert(seq![c] + p.drop_first() =~= p);
        } else if (c as u32) < 32 {
            assert(s[0] == '\\');
            assert(s[1] == 'u');
            assert(s[2] == '0');
            assert(s[3] == '0');
            let hi = (c as u32 / 16) as u8;
            let lo = (c as u32 % 16) as u8;
            assert(s[4] == hex_digit(hi));
            assert(s[5] == hex_digit(lo));
            assert(hi < 2);
            assert(lo < 16);
            assert(hex_val(hex_digit(hi)) == hi as int);
            assert(hex_val(hex_digit(lo)) == lo as int) by {
                if lo < 10 {
                } else {
                }
            }
            let v = hex_val(s[4]) * 16 + hex_val(s[5]);
            assert(v == c as u32);
            assert(v < 32);
            assert(s.skip(6) =~= tail);
            vstd::utf8::char_u32_cast(c, c as u32);
            assert(((v as u32) as char) == c);
            assert(seq![c] + p.drop_first() =~= p);
        } else {
            assert(escape_char(c) == seq![c]);
            assert(s[0] == c);
            assert(s[0] != '"' && s[0] != '\\' && (s[0] as u32) >= 32);
            assert(s.skip(1) =~= tail);
            assert(seq![c] + p.drop_first() =~= p);
        }
    }
}


/// Reading an emitted record line yields its fields back.
#[verifier::rlimit(100)]
proof fn lemma_parse_line(
    parent: Option<Seq<u8>>,
    children: Option<Seq<Seq<u8>>>,
    hash: Seq<u8>,
    path: Seq<char>,
    rest: Seq<char>,
)
    requires
        hash.len() == 20,
        parent is Some ==> parent->0.len() == 20,
        children is Some ==> all_len20(children->0),
    ensures
        parse_line(line_for(parent, children, hash, path) + rest) == Option::Some(
            ((parent, children, hash, path), rest),
        ),
{
    let lp = lit_parent();
    let ob = opt_bytes_json(parent);
    let lc = lit_children();
    let cj = match children {
        Option::None => seq!['n', 'u', 'l', 'l'],
        Option::Some(hs) => arrays_json(hs),
    };
    let lh = lit_hash();
    let bj = bytes_json(hash);
    let lpa = lit_path();
    let esc = escape(path);
    let q = seq!['"'];
    let le = lit_end();
    let p1 = lp + ob;
    let p2 = p1 + lc;
    let p3 = p2 + cj;
    let p4 = p3 + lh;
    let p5 = p4 + bj;
    let p6 = p5 + lpa;
    let p7 = p6 + esc;
    let p8 = p7 + q;
    let p9 = p8 + le;
    assert(line_for(parent, children, hash, path) == p9);
    let u8s = le + rest;
    let u7 = esc + q + u8s;
    let u6 = lpa + u7;
    let u5 = bj + u6;
    let u4 = lh + u5;
    let u3 = cj + u4;
    let u2 = lc + u3;
    let u1 = ob + u2;
    let s = p9 + rest;
    vstd::seq_lib::lemma_concat_associative(p8, le, rest);
    assert(s == p8 + u8s);
    vstd::seq_lib::lemma_concat_associative(p7, q, u8s);
    vstd::seq_lib::lemma_concat_associative(esc, q, u8s);
    assert(s == p7 + (q + u8s));
    assert(u7 == esc + (q + u8s));
    vstd::seq_lib::lemma_concat_associative(p6, esc, q + u8s);
    assert(s == p6 + u7);
    vstd::seq_lib::lemma_concat_associative(p5, lpa, u7);
    assert(s == p5 + u6);
    vstd::seq_lib::lemma_concat_associative(p4, bj, u6);
    assert(s == p4 + u5);
    vstd::seq_lib::lemma_concat_associative(p3, lh, u5);
    assert(s == p3 + u4);
    vstd::seq_lib::lemma_concat_associative(p2, cj, u4);
    assert(s == p2 + u3);
    vstd::seq_lib::lemma_concat_associative(p1, lc, u3);
    assert(s == p1 + u2);
    vstd::seq_lib::lemma_concat_associative(lp, ob, u2);
    assert(s == lp + u1);
    lemma_parse_lit(lp, u1);
    assert(parse_lit(s, lit_parent()) == Option::Some(u1));
    lemma_parse_opt_bytes(parent, u2);
    assert(parse_opt_bytes(u1) == Option::Some((parent, u2)));
    lemma_parse_lit(lc, u3);
    assert(parse_lit(u2, lit_children()) == Option::Some(u3));
    lemma_parse_opt_arrays(children, u4);
    assert(parse_opt_arrays(u3) == Option::Some((children, u4)));
    lemma_parse_lit(lh, u5);
    assert(parse_lit(u4, lit_hash()) == Option::Some(u5));
    lemma_parse_bytes(hash, u6);
    assert(parse_bytes(u5) == Option::Some((hash, u6)));
    lemma_parse_lit(lpa, u7);
    assert(parse_lit(u6, lit_path()) == Option::Some(u7));
    lemma_parse_string(path, u8s);
    assert(parse_string(u7) == Option::Some((path, u8s)));
    lemma_parse_lit(le, rest);
    assert(parse_lit(u8s, lit_end()) == Option::Some(rest));
}

/// A linearization is never empty.
proof fn lemma_emit_obj_len(m: NodeModel)
    ensures
        emit_obj(m).len() >= 10,
{
    match m {
        NodeModel::Blob { .. } => {},
        NodeModel::Tree { .. } => {},
    }
}

/// Reading an emitted subtree yields the subtree back.
proof fn lemma_parse_node_emit(m: NodeModel, rest: Seq<char>)
    requires
        m.wf(),
    ensures
        parse_node(emit_obj(m) + rest) == Option::Some((m, rest)),
    decreases m,
{
    let s = emit_obj(m) + rest;
    match m {
        NodeModel::Blob { parent, hash, path } => {
            lemma_parse_line(parent, Option::None, hash, path, rest);
        },
        NodeModel::Tree { parent, hash, path, children } => {
            let s9 = emit_seq(children) + rest;
            assert(s =~= line_for(parent, Option::Some(hashes_of(children)), hash, path) + s9);
            lemma_hashes_of_len(children);
            lemma_children_wf(children);
            assert forall|i: int|
                0 <= i < hashes_of(children).len() implies (#[trigger] hashes_of(children)[
            i]).len() == 20 by {
                assert(children[i].wf());
            }
            lemma_parse_line(parent, Option::Some(hashes_of(children)), hash, path, s9);
            assert(parse_line(s) == Option::Some(
                ((parent, Option::Some(hashes_of(children)), hash, path), s9),
            ));
            assert(s.len() == line_for(
                parent,
                Option::Some(hashes_of(children)),
                hash,
                path,
            ).len() + s9.len());
            assert(line_for(parent, Option::Some(hashes_of(children)), hash, path).len() >= 10);
            assert(s9.len() < s.len());
            lemma_parse_children_emit(children, rest);
            assert(parse_children(children.len(), s9) == Option::Some((children, rest)));
        },
    }
}

/// Reading an emitted forest of `n` subtrees yields the forest back.
proof fn lemma_parse_children_emit(ms: Seq<NodeModel>, rest: Seq<char>)
    requires
        forall|i: int| 0 <= i < ms.len() ==> (#[trigger] ms[i]).wf(),
    ensures
        parse_children(ms.len(), emit_seq(ms) + rest) == Option::Some((ms, rest)),
    decreases ms,
{
    let s = emit_seq(ms) + rest;
    if ms.len() == 0 {
        assert(emit_seq(ms) == Seq::<char>::empty());
        assert(s =~= rest);
        assert(ms =~= Seq::<NodeModel>::empty());
    } else {
        let r = emit_seq(ms.drop_first()) + rest;
        assert(s =~= emit_obj(ms[0]) + r);
        lemma_parse_node_emit(ms[0], r);
        assert(parse_node(s) == Option::Some((ms[0], r)));
        lemma_emit_obj_len(ms[0]);
        assert(s.len() == emit_obj(ms[0]).len() + r.len());
        assert(r.len() < s.len());
        assert(forall|i: int|
            0 <= i < ms.drop_first().len() ==> (#[trigger] ms.drop_first()[i]) == ms[i + 1]);
        lemma_parse_children_emit(ms.drop_first(), rest);
        assert(parse_children((ms.len() - 1) as nat, r) == Option::Some((ms.drop_first(), rest)));
        assert(seq![ms[0]] + ms.drop_first() =~= ms);
    }
}

/// Round trip: loading a persisted linearization yields the tree back, value
/// for value.
pub proof fn lemma_load_round_trip(m: NodeModel)
    requires
        m.wf(),
        m is Tree,
    ensures
        spec_load(emit_obj(m)) == Option::Some(m),
{
    lemma_parse_node_emit(m, Seq::<char>::empty());
    assert(emit_obj(m) + Seq::<char>::empty() =~= emit_obj(m));
}


/// A failure to decode a persisted tree stream.
pub struct CodecError;

/// Whether a character is a decimal digit.
fn is_digit_ch(c: char) -> (b: bool)
    ensures
        b == is_digit(c),
{
    let u = c as u32;
    48 <= u && u <= 57
}

/// The value of a lowercase hex digit, or none.
pub(crate) fn hex_val_ch(c: char) -> (r: Option<u8>)
    ensures
        match r {
            Option::Some(d) => hex_val(c) == d as int && d < 16,
            Option::None => hex_val(c) < 0,
        },
{
    let u = c as u32;
    if 48 <= u && u <= 57 {
        Option::Some((u - 48) as u8)
    } else if 97 <= u && u <= 102 {
        Option::Some((u - 87) as u8)
    } else {
        Option::None
    }
}

/// Match the literal that `lit_parent` spells, advancing past it.
fn pl_parent(v: &Vec<char>, pos: usize) -> (r: Option<usize>)
    requires
        pos <= v@.len(),
    ensures
        match r {
            Option::Some(p2) => parse_lit(v@.skip(pos as int), lit_parent()) == Option::Some(
                v@.skip(p2 as int),
            ) && pos < p2 <= v@.len(),
            Option::None => parse_lit(v@.skip(pos as int), lit_parent()) is None,
        },
{
    let ghost sfx = v@.skip(pos as int);
    if v.len() >= 10 && pos <= v.len() - 10 && v[pos + 0] == '{' && v[pos + 1] == '"' && v[pos + 2] == 'p' && v[pos + 3] == 'a' && v[pos + 4] == 'r' && v[pos + 5] == 'e' && v[pos + 6] == 'n' && v[pos + 7] == 't' && v[pos + 8] == '"' && v[pos + 9] == ':' {
        proof {
            assert(sfx.take(10) =~= lit_parent());
            assert(sfx.skip(10) =~= v@.skip(pos as int + 10));
        }
        Option::Some(pos + 10)
    } else {
        proof {
            if 10 <= sfx.len() {
                if sfx.take(10) == lit_parent() {
                assert(sfx[0] == v@[pos as int + 0]);
                assert(sfx[1] == v@[pos as int + 1]);
                assert(sfx[2] == v@[pos as int + 2]);
                assert(sfx[3] == v@[pos as int + 3]);
                assert(sfx[4] == v@[pos as int + 4]);
                assert(sfx[5] == v@[pos as int + 5]);
                assert(sfx[6] == v@[pos as int + 6]);
                assert(sfx[7] == v@[pos as int + 7]);
                assert(sfx[8] == v@[pos as int + 8]);
                assert(sfx[9] == v@[pos as int + 9]);
                    assert(false);
                }
            }
        }
        Option::None
    }
}

/// Match the literal that `lit_children` spells, advancing past it.
fn pl_children(v: &Vec<char>, pos: usize) -> (r: Option<usize>)
    requires
        pos <= v@.len(),
    ensures
        match r {
            Option::Some(p2) => parse_lit(v@.skip(pos as int), lit_children()) == Option::Some(
                v@.skip(p2 as int),
            ) && pos < p2 <= v@.len(),
            Option::None => parse_lit(v@.skip(pos as int), lit_children()) is None,
        },
{
    let ghost sfx = v@.skip(pos as int);
    if v.len() >= 12 && pos <= v.len() - 12 && v[pos + 0] == ',' && v[pos + 1] == '"' && v[pos + 2] == 'c' && v[pos + 3] == 'h' && v[pos + 4] == 'i' && v[pos + 5] == 'l' && v[pos + 6] == 'd' && v[pos + 7] == 'r' && v[pos + 8] == 'e' && v[pos + 9] == 'n' && v[pos + 10] == '"' && v[pos + 11] == ':' {
        proof {
            assert(sfx.take(12) =~= lit_children());
            assert(sfx.skip(12) =~= v@.skip(pos as int + 12));
        }
        Option::Some(pos + 12)
    } else {
        proof {
            if 12 <= sfx.len() {
                if sfx.take(12) == lit_children() {
                assert(sfx[0] == v@[pos as int + 0]);
                assert(sfx[1] == v@[pos as int + 1]);
                assert(sfx[2] == v@[pos as int + 2]);
                assert(sfx[3] == v@[pos as int + 3]);
                assert(sfx[4] == v@[pos as int + 4]);
                assert(sfx[5] == v@[pos as int + 5]);
                assert(sfx[6] == v@[pos as int + 6]);
                assert(sfx[7] == v@[pos as int + 7]);
                assert(sfx[8] == v@[pos as int + 8]);
                assert(sfx[9] == v@[pos as int + 9]);
                assert(sfx[10] == v@[pos as int + 10]);
                assert(sfx[11] == v@[pos as int + 11]);
                    assert(false);
                }
            }
        }
        Option::None
    }
}

/// Match the literal that `lit_hash` spells, advancing past it.
fn pl_hash(v: &Vec<char>, pos: usize) -> (r: Option<usize>)
    requires
        pos <= v@.len(),
    ensures
        match r {
            Option::Some(p2) => parse_lit(v@.skip(pos as int), lit_hash()) == Option::Some(
                v@.skip(p2 as int),
            ) && pos < p2 <= v@.len(),
            Option::None => parse_lit(v@.skip(pos as int), lit_hash()) is None,
        },
{
    let ghost sfx = v@.skip(pos as int);
    if v.len() >= 8 && pos <= v.len() - 8 && v[pos + 0] == ',' && v[pos + 1] == '"' && v[pos + 2] == 'h' && v[pos + 3] == 'a' && v[pos + 4] == 's' && v[pos + 5] == 'h' && v[pos + 6] == '"' && v[pos + 7] == ':' {
        proof {
            assert(sfx.take(8) =~= lit_hash());
            assert(sfx.skip(8) =~= v@.skip(pos as int + 8));
        }
        Option::Some(pos + 8)
    } else {
        proof {
            if 8 <= sfx.len() {
                if sfx.take(8) == lit_hash() {
                assert(sfx[0] == v@[pos as int + 0]);
                assert(sfx[1] == v@[pos as int + 1]);
                assert(sfx[2] == v@[pos as int + 2]);
                assert(sfx[3] == v@[pos as int + 3]);
                assert(sfx[4] == v@[pos as int + 4]);
                assert(sfx[5] == v@[pos as int + 5]);
                assert(sfx[6] == v@[pos as int + 6]);
                assert(sfx[7] == v@[pos as int + 7]);
                    assert(false);
                }
            }
        }
        Option::None
    }
}

/// Match the literal that `lit_path` spells, advancing past it.
fn pl_path(v: &Vec<char>, pos: usize) -> (r: Option<usize>)
    requires
        pos <= v@.len(),
    ensures
        match r {
            Option::Some(p2) => parse_lit(v@.skip(pos as int), lit_path()) == Option::Some(
                v@.skip(p2 as int),
            ) && pos < p2 <= v@.len(),
            Option::None => parse_lit(v@.skip(pos as int), lit_path()) is None,
        },
{
    let ghost sfx = v@.skip(pos as int);
    if v.len() >= 9 && pos <= v.len() - 9 && v[pos + 0] == ',' && v[pos + 1] == '"' && v[pos + 2] == 'p' && v[pos + 3] == 'a' && v[pos + 4] == 't' && v[pos + 5] == 'h' && v[pos + 6] == '"' && v[pos + 7] == ':' && v[pos + 8] == '"' {
        proof {
            assert(sfx.take(9) =~= lit_path());
            assert(sfx.skip(9) =~= v@.skip(pos as int + 9));
        }
        Option::Some(pos + 9)
    } else {
        proof {
            if 9 <= sfx.len() {
                if sfx.take(9) == lit_path() {
                assert(sfx[0] == v@[pos as int + 0]);
                assert(sfx[1] == v@[pos as int + 1]);
                assert(sfx[2] == v@[pos as int + 2]);
                assert(sfx[3] == v@[pos as int + 3]);
                assert(sfx[4] == v@[pos as int + 4]);
                assert(sfx[5] == v@[pos as int + 5]);
                assert(sfx[6] == v@[pos as int + 6]);
                assert(sfx[7] == v@[pos as int + 7]);
                assert(sfx[8] == v@[pos as int + 8]);
                    assert(false);
                }
            }
        }
        Option::None
    }
}

/// Match the literal that `lit_end` spells, advancing past it.
fn pl_end(v: &Vec<char>, pos: usize) -> (r: Option<usize>)
    requires
        pos <= v@.len(),
    ensures
        match r {
            Option::Some(p2) => parse_lit(v@.skip(pos as int), lit_end()) == Option::Some(
                v@.skip(p2 as int),
            ) && pos < p2 <= v@.len(),
            Option::None => parse_lit(v@.skip(pos as int), lit_end()) is None,
        },
{
    let ghost sfx = v@.skip(pos as int);
    if v.len() >= 2 && pos <= v.len() - 2 && v[pos + 0] == '}' && v[pos + 1] == '\n' {
        proof {
            assert(sfx.take(2) =~= lit_end());
            assert(sfx.skip(2) =~= v@.skip(pos as int + 2));
        }
        Option::Some(pos + 2)
    } else {
        proof {
            if 2 <= sfx.len() {
                if sfx.take(2) == lit_end() {
                assert(sfx[0] == v@[pos as int + 0]);
                assert(sfx[1] == v@[pos as int + 1]);
                    assert(false);
                }
            }
        }
        Option::None
    }
}

/// Read a decimal byte value.
fn p_u8(v: &Vec<char>, pos: usize) -> (r: Option<(u8, usize)>)
    requires
        pos <= v@.len(),
    ensures
        match r {
            Option::Some(t) => parse_u8(v@.skip(pos as int)) == Option::Some(
                (t.0, v@.skip(t.1 as int)),
            ) && pos < t.1 <= v@.len(),
            Option::None => parse_u8(v@.skip(pos as int)) is None,
        },
{
    let ghost sfx = v@.skip(pos as int);
    proof {
        assert(sfx.len() == v@.len() - pos);
    }
    if pos < v.len() && is_digit_ch(v[pos]) {
        proof {
            assert(sfx[0] == v@[pos as int]);
        }
        let d0 = (v[pos] as u32 - 48) as u8;
        if v.len() >= 2 && pos <= v.len() - 2 && is_digit_ch(v[pos + 1]) {
            proof {
                assert(sfx[1] == v@[pos as int + 1]);
            }
            let d1 = (v[pos + 1] as u32 - 48) as u8;
            if v.len() >= 3 && pos <= v.len() - 3 && is_digit_ch(v[pos + 2]) {
                proof {
                    assert(sfx[2] == v@[pos as int + 2]);
                }
                let d2 = (v[pos + 2] as u32 - 48) as u8;
                let val: u32 = d0 as u32 * 100 + d1 as u32 * 10 + d2 as u32;
                if val <= 255 {
                    proof {
                        assert(sfx.skip(3) =~= v@.skip(pos as int + 3));
                    }
                    Option::Some(((val as u8), pos + 3))
                } else {
                    Option::None
                }
            } else {
                proof {
                    if pos + 2 < v@.len() {
                        assert(sfx[2] == v@[pos as int + 2]);
                    }
                    assert(sfx.skip(2) =~= v@.skip(pos as int + 2));
                }
                Option::Some((d0 * 10 + d1, pos + 2))
            }
        } else {
            proof {
                if pos + 1 < v@.len() {
                    assert(sfx[1] == v@[pos as int + 1]);
                }
                assert(sfx.skip(1) =~= v@.skip(pos as int + 1));
            }
            Option::Some((d0, pos + 1))
        }
    } else {
        proof {
            if pos < v@.len() {
                assert(sfx[0] == v@[pos as int]);
            }
        }
        Option::None
    }
}

/// Read the rest of a non-empty integer array.
fn p_bytes_rest(v: &Vec<char>, pos: usize) -> (r: Option<(Vec<u8>, usize)>)
    requires
        pos <= v@.len(),
    ensures
        match r {
            Option::Some(t) => parse_bytes_rest(v@.skip(pos as int)) == Option::Some(
                (t.0@, v@.skip(t.1 as int)),
            ) && pos < t.1 <= v@.len(),
            Option::None => parse_bytes_rest(v@.skip(pos as int)) is None,
        },
    decreases v@.len() - pos,
{
    let ghost sfx = v@.skip(pos as int);
    match p_u8(v, pos) {
        Option::None => Option::None,
        Option::Some((b, p1)) => {
            proof {
                assert(v@.skip(p1 as int).len() == v@.len() - p1);
                if p1 < v@.len() {
                    assert(v@.skip(p1 as int)[0] == v@[p1 as int]);
                }
            }
            if p1 < v.len() && v[p1] == ',' {
                proof {
                    assert(v@.skip(p1 as int).len() < sfx.len());
                    assert(v@.skip(p1 as int).skip(1) =~= v@.skip(p1 as int + 1));
                }
                match p_bytes_rest(v, p1 + 1) {
                    Option::None => Option::None,
                    Option::Some((bs2, p2)) => {
                        let mut out = bs2;
                        out.insert(0, b);
                        proof {
                            assert(out@ =~= seq![b] + out@.skip(1));
                            assert(out@.skip(1) =~= out@.subrange(1, out@.len() as int));
                        }
                        Option::Some((out, p2))
                    },
                }
            } else if p1 < v.len() && v[p1] == ']' {
                let mut one: Vec<u8> = Vec::new();
                one.push(b);
                proof {
                    assert(one@ =~= seq![b]);
                    assert(v@.skip(p1 as int).skip(1) =~= v@.skip(p1 as int + 1));
                }
                Option::Some((one, p1 + 1))
            } else {
                Option::None
            }
        },
    }
}

/// Read a JSON integer array.
fn p_bytes(v: &Vec<char>, pos: usize) -> (r: Option<(Vec<u8>, usize)>)
    requires
        pos <= v@.len(),
    ensures
        match r {
            Option::Some(t) => parse_bytes(v@.skip(pos as int)) == Option::Some(
                (t.0@, v@.skip(t.1 as int)),
            ) && pos < t.1 <= v@.len(),
            Option::None => parse_bytes(v@.skip(pos as int)) is None,
        },
    decreases v@.len() - pos,
{
    let ghost sfx = v@.skip(pos as int);
    proof {
        if pos < v@.len() {
            assert(sfx[0] == v@[pos as int]);
        }
        if pos + 1 < v@.len() {
            assert(sfx[1] == v@[pos as int + 1]);
        }
    }
    if v.len() >= 2 && pos <= v.len() - 2 && v[pos] == '[' && v[pos + 1] == ']' {
        proof {
            assert(sfx.skip(2) =~= v@.skip(pos as int + 2));
        }
        let empty: Vec<u8> = Vec::new();
        proof {
            assert(empty@ =~= Seq::<u8>::empty());
        }
        Option::Some((empty, pos + 2))
    } else if pos < v.len() && v[pos] == '[' {
        proof {
            assert(sfx.skip(1) =~= v@.skip(pos as int + 1));
        }
        p_bytes_rest(v, pos + 1)
    } else {
        Option::None
    }
}

/// Read `null` or a JSON integer array.
fn p_opt_bytes(v: &Vec<char>, pos: usize) -> (r: Option<(Option<Vec<u8>>, usize)>)
    requires
        pos <= v@.len(),
    ensures
        match r {
            Option::Some(t) => parse_opt_bytes(v@.skip(pos as int)) == Option::Some(
                ((match t.0 {
                    Option::Some(bs) => Option::Some(bs@),
                    Option::None => Option::None,
                }), v@.skip(t.1 as int)),
            ) && pos < t.1 <= v@.len(),
            Option::None => parse_opt_bytes(v@.skip(pos as int)) is None,
        },
    decreases v@.len() - pos,
{
    let ghost sfx = v@.skip(pos as int);
    proof {
        if pos < v@.len() {
            assert(sfx[0] == v@[pos as int]);
        }
        if pos + 1 < v@.len() {
            assert(sfx[1] == v@[pos as int + 1]);
        }
        if pos + 2 < v@.len() {
            assert(sfx[2] == v@[pos as int + 2]);
        }
        if pos + 3 < v@.len() {
            assert(sfx[3] == v@[pos as int + 3]);
        }
    }
    if v.len() >= 4 && pos <= v.len() - 4 && v[pos] == 'n' && v[pos + 1] == 'u' && v[pos + 2] == 'l' && v[pos + 3]
        == 'l' {
        proof {
            assert(sfx.skip(4) =~= v@.skip(pos as int + 4));
        }
        Option::Some((Option::None, pos + 4))
    } else {
        match p_bytes(v, pos) {
            Option::None => Option::None,
            Option::Some((bs, p2)) => Option::Some((Option::Some(bs), p2)),
        }
    }
}


/// The views of a vector of byte vectors.
pub open spec fn vecs_views(s: Seq<Vec<u8>>) -> Seq<Seq<u8>> {
    s.map_values(|x: Vec<u8>| x@)
}

/// Read the rest of a non-empty array of integer arrays.
fn p_arrays_rest(v: &Vec<char>, pos: usize) -> (r: Option<(Vec<Vec<u8>>, usize)>)
    requires
        pos <= v@.len(),
    ensures
        match r {
            Option::Some(t) => parse_arrays_rest(v@.skip(pos as int)) == Option::Some(
                (vecs_views(t.0@), v@.skip(t.1 as int)),
            ) && pos < t.1 <= v@.len(),
            Option::None => parse_arrays_rest(v@.skip(pos as int)) is None,
        },
    decreases v@.len() - pos,
{
    let ghost sfx = v@.skip(pos as int);
    match p_bytes(v, pos) {
        Option::None => Option::None,
        Option::Some((b, p1)) => {
            proof {
                assert(v@.skip(p1 as int).len() == v@.len() - p1);
                if p1 < v@.len() {
                    assert(v@.skip(p1 as int)[0] == v@[p1 as int]);
                }
            }
            if p1 < v.len() && v[p1] == ',' {
                proof {
                    assert(v@.skip(p1 as int).len() < sfx.len());
                    assert(v@.skip(p1 as int).skip(1) =~= v@.skip(p1 as int + 1));
                }
                match p_arrays_rest(v, p1 + 1) {
                    Option::None => Option::None,
                    Option::Some((bs2, p2)) => {
                        let ghost tailviews = vecs_views(bs2@);
                        let mut out = bs2;
                        out.insert(0, b);
                        proof {
                            assert(vecs_views(out@) =~= seq![b@] + tailviews);
                        }
                        Option::Some((out, p2))
                    },
                }
            } else if p1 < v.len() && v[p1] == ']' {
                let mut one: Vec<Vec<u8>> = Vec::new();
                let ghost bview = b@;
                one.push(b);
                proof {
                    assert(vecs_views(one@) =~= seq![bview]);
                    assert(v@.skip(p1 as int).skip(1) =~= v@.skip(p1 as int + 1));
                }
                Option::Some((one, p1 + 1))
            } else {
                Option::None
            }
        },
    }
}

/// Read a JSON array of integer arrays.
fn p_arrays(v: &Vec<char>, pos: usize) -> (r: Option<(Vec<Vec<u8>>, usize)>)
    requires
        pos <= v@.len(),
    ensures
        match r {
            Option::Some(t) => parse_arrays(v@.skip(pos as int)) == Option::Some(
                (vecs_views(t.0@), v@.skip(t.1 as int)),
            ) && pos < t.1 <= v@.len(),
            Option::None => parse_arrays(v@.skip(pos as int)) is None,
        },
    decreases v@.len() - pos,
{
    let ghost sfx = v@.skip(pos as int);
    proof {
        if pos < v@.len() {
            assert(sfx[0] == v@[pos as int]);
        }
        if pos + 1 < v@.len() {
            assert(sfx[1] == v@[pos as int + 1]);
        }
    }
    if v.len() >= 2 && pos <= v.len() - 2 && v[pos] == '[' && v[pos + 1] == ']' {
        proof {
            assert(sfx.skip(2) =~= v@.skip(pos as int + 2));
        }
        let empty: Vec<Vec<u8>> = Vec::new();
        proof {
            assert(vecs_views(empty@) =~= Seq::<Seq<u8>>::empty());
        }
        Option::Some((empty, pos + 2))
    } else if pos < v.len() && v[pos] == '[' {
        proof {
            assert(sfx.skip(1) =~= v@.skip(pos as int + 1));
        }
        p_arrays_rest(v, pos + 1)
    } else {
        Option::None
    }
}

/// Read `null` or a JSON array of integer arrays.
fn p_opt_arrays(v: &Vec<char>, pos: usize) -> (r: Option<(Option<Vec<Vec<u8>>>, usize)>)
    requires
        pos <= v@.len(),
    ensures
        match r {
            Option::Some(t) => parse_opt_arrays(v@.skip(pos as int)) == Option::Some(
                ((match t.0 {
                    Option::Some(hs) => Option::Some(vecs_views(hs@)),
                    Option::None => Option::None,
                }), v@.skip(t.1 as int)),
            ) && pos < t.1 <= v@.len(),
            Option::None => parse_opt_arrays(v@.skip(pos as int)) is None,
        },
    decreases v@.len() - pos,
{
    let ghost sfx = v@.skip(pos as int);
    proof {
        if pos < v@.len() {
            assert(sfx[0] == v@[pos as int]);
        }
        if pos + 1 < v@.len() {
            assert(sfx[1] == v@[pos as int + 1]);
        }
        if pos + 2 < v@.len() {
            assert(sfx[2] == v@[pos as int + 2]);
        }
        if pos + 3 < v@.len() {
            assert(sfx[3] == v@[pos as int + 3]);
        }
    }
    if v.len() >= 4 && pos <= v.len() - 4 && v[pos] == 'n' && v[pos + 1] == 'u' && v[pos + 2]
        == 'l' && v[pos + 3] == 'l' {
        proof {
            assert(sfx.skip(4) =~= v@.skip(pos as int + 4));
        }
        Option::Some((Option::None, pos + 4))
    } else {
        match p_arrays(v, pos) {
            Option::None => Option::None,
            Option::Some((hs, p2)) => Option::Some((Option::Some(hs), p2)),
        }
    }
}

/// Read a string's characters up to and including the closing quote.
pub(crate) fn p_string(v: &Vec<char>, pos: usize) -> (r: Option<(Vec<char>, usize)>)
    requires
        pos <= v@.len(),
    ensures
        match r {
            Option::Some(t) => parse_string(v@.skip(pos as int)) == Option::Some(
                (t.0@, v@.skip(t.1 as int)),
            ) && pos < t.1 <= v@.len(),
            Option::None => parse_string(v@.skip(pos as int)) is None,
        },
    decreases v@.len() - pos,
{
    let ghost sfx = v@.skip(pos as int);
    proof {
        if pos < v@.len() {
            assert(sfx[0] == v@[pos as int]);
        }
        if pos + 1 < v@.len() {
            assert(sfx[1] == v@[pos as int + 1]);
        }
        if pos + 2 < v@.len() {
            assert(sfx[2] == v@[pos as int + 2]);
        }
        if pos + 3 < v@.len() {
            assert(sfx[3] == v@[pos as int + 3]);
        }
        if pos + 4 < v@.len() {
            assert(sfx[4] == v@[pos as int + 4]);
        }
        if pos + 5 < v@.len() {
            assert(sfx[5] == v@[pos as int + 5]);
        }
    }
    if pos >= v.len() {
        return Option::None;
    }
    let c0 = v[pos];
    if c0 == '"' {
        let empty: Vec<char> = Vec::new();
        proof {
            assert(empty@ =~= Seq::<char>::empty());
            assert(sfx.skip(1) =~= v@.skip(pos as int + 1));
        }
        return Option::Some((empty, pos + 1));
    }
    if c0 == '\\' {
        if v.len() >= 2 && pos <= v.len() - 2 && (v[pos + 1] == '"' || v[pos + 1] == '\\') {
            let c1 = v[pos + 1];
            proof {
                assert(sfx.skip(2) =~= v@.skip(pos as int + 2));
            }
            match p_string(v, pos + 2) {
                Option::None => Option::None,
                Option::Some((tail, p2)) => {
                    let mut out = tail;
                    out.insert(0, c1);
                    proof {
                        assert(out@ =~= seq![sfx[1]] + out@.skip(1));
                    }
                    Option::Some((out, p2))
                },
            }
        } else if v.len() >= 6 && pos <= v.len() - 6 && v[pos + 1] == 'u' && v[pos + 2] == '0'
            && v[pos + 3] == '0' {
            let h1 = hex_val_ch(v[pos + 4]);
            let h2 = hex_val_ch(v[pos + 5]);
            match (h1, h2) {
                (Option::Some(a), Option::Some(b)) => {
                    let val: u32 = a as u32 * 16 + b as u32;
                    if val < 32 {
                        proof {
                            assert(sfx.skip(6) =~= v@.skip(pos as int + 6));
                        }
                        match p_string(v, pos + 6) {
                            Option::None => Option::None,
                            Option::Some((tail, p2)) => {
                                let c: char = (val as u8) as char;
                                let mut out = tail;
                                out.insert(0, c);
                                proof {
                                    let specv = hex_val(sfx[4]) * 16 + hex_val(sfx[5]);
                                    assert(specv == val as int);
                                    assert(((specv as u32) as char) == c);
                                    assert(out@ =~= seq![(specv as u32) as char] + out@.skip(1));
                                }
                                Option::Some((out, p2))
                            },
                        }
                    } else {
                        Option::None
                    }
                },
                _ => Option::None,
            }
        } else {
            Option::None
        }
    } else {
        let u = c0 as u32;
        if u < 32 {
            return Option::None;
        }
        proof {
            assert(sfx.skip(1) =~= v@.skip(pos as int + 1));
        }
        match p_string(v, pos + 1) {
            Option::None => Option::None,
            Option::Some((tail, p2)) => {
                let mut out = tail;
                out.insert(0, c0);
                proof {
                    assert(out@ =~= seq![sfx[0]] + out@.skip(1));
                }
                Option::Some((out, p2))
            },
        }
    }
}


/// The four decoded fields of one record line.
struct LineParts {
    parent: Option<Vec<u8>>,
    children: Option<Vec<Vec<u8>>>,
    hash: Vec<u8>,
    path: Vec<char>,
}

/// The ghost view of decoded line fields.
pub open spec fn opt_vec_view(p: Option<Vec<u8>>) -> Option<Seq<u8>> {
    match p {
        Option::None => Option::None,
        Option::Some(bs) => Option::Some(bs@),
    }
}

/// Read one record line and check the hash widths.
fn p_line(v: &Vec<char>, pos: usize) -> (r: Option<(LineParts, usize)>)
    requires
        pos <= v@.len(),
    ensures
        match r {
            Option::Some(t) => {
                &&& parse_line(v@.skip(pos as int)) == Option::Some(
                    (
                        (
                            opt_vec_view(t.0.parent),
                            match t.0.children {
                                Option::None => Option::None,
                                Option::Some(hs) => Option::Some(vecs_views(hs@)),
                            },
                            t.0.hash@,
                            t.0.path@,
                        ),
                        v@.skip(t.1 as int),
                    ),
                )
                &&& pos < t.1 <= v@.len()
                &&& t.0.hash@.len() == 20
                &&& (t.0.parent is Some ==> t.0.parent->0@.len() == 20)
            },
            Option::None => parse_line(v@.skip(pos as int)) is None,
        },
{
    let p1 = match pl_parent(v, pos) {
        Option::None => {
            return Option::None;
        },
        Option::Some(p) => p,
    };
    let (parent, p2) = match p_opt_bytes(v, p1) {
        Option::None => {
            return Option::None;
        },
        Option::Some(t) => t,
    };
    match &parent {
        Option::Some(bs) => {
            if bs.len() != 20 {
                return Option::None;
            }
        },
        Option::None => {},
    }
    let p3 = match pl_children(v, p2) {
        Option::None => {
            return Option::None;
        },
        Option::Some(p) => p,
    };
    let (children, p4) = match p_opt_arrays(v, p3) {
        Option::None => {
            return Option::None;
        },
        Option::Some(t) => t,
    };
    match &children {
        Option::Some(hs) => {
            let mut all_ok: bool = true;
            let mut k: usize = 0;
            while k < hs.len()
                invariant
                    k <= hs@.len(),
                    all_ok ==> forall|j: int| 0 <= j < k ==> (#[trigger] hs@[j])@.len() == 20,
                    !all_ok ==> !all_len20(vecs_views(hs@)),
                decreases hs@.len() - k,
            {
                if hs[k].len() != 20 {
                    proof {
                        assert(vecs_views(hs@)[k as int] == hs@[k as int]@);
                        assert(!all_len20(vecs_views(hs@)));
                    }
                    all_ok = false;
                }
                k = k + 1;
            }
            if !all_ok {
                return Option::None;
            }
            proof {
                assert forall|j: int|
                    0 <= j < vecs_views(hs@).len() implies (#[trigger] vecs_views(hs@)[j]).len()
                    == 20 by {
                    assert(vecs_views(hs@)[j] == hs@[j]@);
                }
                assert(all_len20(vecs_views(hs@)));
            }
        },
        Option::None => {},
    }
    let p5 = match pl_hash(v, p4) {
        Option::None => {
            return Option::None;
        },
        Option::Some(p) => p,
    };
    let (hash, p6) = match p_bytes(v, p5) {
        Option::None => {
            return Option::None;
        },
        Option::Some(t) => t,
    };
    if hash.len() != 20 {
        return Option::None;
    }
    let p7 = match pl_path(v, p6) {
        Option::None => {
            return Option::None;
        },
        Option::Some(p) => p,
    };
    let (path, p8) = match p_string(v, p7) {
        Option::None => {
            return Option::None;
        },
        Option::Some(t) => t,
    };
    let p9 = match pl_end(v, p8) {
        Option::None => {
            return Option::None;
        },
        Option::Some(p) => p,
    };
    Option::Some((LineParts { parent, children, hash, path }, p9))
}

/// Read one node: its record line, then one subtree per declared child.
fn p_node(v: &Vec<char>, pos: usize) -> (r: Option<(Object, usize)>)
    requires
        pos <= v@.len(),
    ensures
        match r {
            Option::Some(t) => parse_node(v@.skip(pos as int)) == Option::Some(
                (t.0.model(), v@.skip(t.1 as int)),
            ) && pos < t.1 <= v@.len() && t.0.model().wf(),
            Option::None => parse_node(v@.skip(pos as int)) is None,
        },
    decreases v@.len() - pos, 0int,
{
    match p_line(v, pos) {
        Option::None => Option::None,
        Option::Some((parts, p9)) => {
            match parts.children {
                Option::None => {
                    let parent = match parts.parent {
                        Option::None => Option::None,
                        Option::Some(bs) => Option::Some(ObjectHash::from_bytes(bs)),
                    };
                    let b = Blob {
                        parent,
                        hash: ObjectHash::from_bytes(parts.hash),
                        path: chars_to_string(&parts.path),
                    };
                    proof {
                        assert(b.model().wf());
                    }
                    Option::Some((Object::Blob(b), p9))
                },
                Option::Some(hs) => {
                    proof {
                        assert(v@.skip(p9 as int).len() < v@.skip(pos as int).len());
                    }
                    match p_children_nodes(hs.len(), v, p9) {
                        Option::None => Option::None,
                        Option::Some((kids, p2)) => {
                            let parent = match parts.parent {
                                Option::None => Option::None,
                                Option::Some(bs) => Option::Some(ObjectHash::from_bytes(bs)),
                            };
                            let ghost kid_models = models_of(kids@);
                            let t = Tree {
                                parent,
                                children: kids,
                                hash: ObjectHash::from_bytes(parts.hash),
                                path: chars_to_string(&parts.path),
                            };
                            proof {
                                assert(vecs_views(hs@).len() == hs@.len());
                                lemma_children_wf(kid_models);
                                assert(t.model().wf());
                            }
                            Option::Some((Object::Tree(t), p2))
                        },
                    }
                },
            }
        },
    }
}

/// Read `n` nodes in a row.
fn p_children_nodes(n: usize, v: &Vec<char>, pos: usize) -> (r: Option<(Vec<Object>, usize)>)
    requires
        pos <= v@.len(),
    ensures
        match r {
            Option::Some(t) => parse_children(n as nat, v@.skip(pos as int)) == Option::Some(
                (models_of(t.0@), v@.skip(t.1 as int)),
            ) && pos <= t.1 <= v@.len() && (forall|i: int|
                0 <= i < models_of(t.0@).len() ==> (#[trigger] models_of(t.0@)[i]).wf()),
            Option::None => parse_children(n as nat, v@.skip(pos as int)) is None,
        },
    decreases v@.len() - pos, 1int,
{
    if n == 0 {
        let empty: Vec<Object> = Vec::new();
        proof {
            assert(empty@ =~= Seq::<Object>::empty());
            assert(models_of(empty@) == Seq::<NodeModel>::empty());
        }
        Option::Some((empty, pos))
    } else {
        match p_node(v, pos) {
            Option::None => Option::None,
            Option::Some((o, p1)) => {
                proof {
                    assert(v@.skip(p1 as int).len() < v@.skip(pos as int).len());
                }
                match p_children_nodes(n - 1, v, p1) {
                    Option::None => Option::None,
                    Option::Some((rest, p2)) => {
                        let ghost rest_models = models_of(rest@);
                        let ghost om = o.model();
                        let mut out = rest;
                        out.insert(0, o);
                        proof {
                            lemma_models_of(out@);
                            lemma_models_of(out@.skip(1));
                            assert(out@.skip(1) =~= out@.subrange(1, out@.len() as int));
                            lemma_models_of(rest@);
                            assert forall|i: int|
                                0 <= i < out@.len() implies models_of(out@)[i] == (seq![om]
                                + rest_models)[i] by {
                                assert(models_of(out@)[i] == out@[i].model());
                                if i > 0 {
                                    assert(out@[i] == rest@[i - 1]);
                                    assert(models_of(rest@)[i - 1] == rest@[i - 1].model());
                                } else {
                                    assert(out@[0] == o);
                                }
                            }
                            assert(models_of(out@) =~= seq![om] + rest_models);
                        }
                        Option::Some((out, p2))
                    },
                }
            },
        }
    }
}

/// Decode a string's characters.
pub(crate) fn str_to_chars(s: &str) -> (r: Vec<char>)
    ensures
        r@ == s@,
{
    let n = s.unicode_len();
    let mut out: Vec<char> = Vec::new();
    let mut i: usize = 0;
    while i < n
        invariant
            n == s@.len(),
            i <= n,
            out@ =~= s@.take(i as int),
        decreases n - i,
    {
        out.push(s.get_char(i));
        i = i + 1;
        proof {
            assert(s@.take(i as int) =~= s@.take(i as int - 1).push(s@[i as int - 1]));
        }
    }
    proof {
        assert(s@.take(n as int) =~= s@);
    }
    out
}

impl Tree {
    /// Decode a tree from a line-delimited record stream: the first record
    /// must be a directory; each directory's subtrees follow it, one per
    /// declared child hash; trailing input is ignored. Fails exactly when the
    /// stream does not begin with such a well-formed linearization.
    pub fn obj_from_jsonl(s: &str) -> (r: Result<Tree, CodecError>)
        ensures
            match r {
                Result::Ok(t) => spec_load(s@) == Option::Some(t.model()) && t.model().wf(),
                Result::Err(_) => spec_load(s@) is None,
            },
    {
        let chars = str_to_chars(s);
        proof {
            assert(chars@.skip(0) =~= chars@);
        }
        match p_node(&chars, 0) {
            Option::None => Result::Err(CodecError),
            Option::Some((o, _end)) => {
                match o {
                    Object::Tree(t) => Result::Ok(t),
                    Object::Blob(_) => Result::Err(CodecError),
                }
            },
        }
    }
}

} // verus!
