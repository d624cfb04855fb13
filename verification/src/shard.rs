//! The reverse-tag shard codec: one shard file is a JSON object from the
//! lowercase-hex hash to its tag list, written compactly in entry order.

use vstd::prelude::*;
use crate::hashing::{ObjectHash, hex_of, hex_digit, hash_chars, chars_to_string};
use crate::codec::{escape, parse_string, hex_val, p_string, push_escaped, str_to_chars,
    lemma_parse_string, CodecError};
use crate::rev_tags::{RevTags, strs_views};

verus! {

/// A tag as a JSON string, quotes included.
pub open spec fn tag_json(t: Seq<char>) -> Seq<char> {
    seq!['"'] + escape(t) + seq!['"']
}

/// The body of a JSON array of tag strings.
pub open spec fn tags_inner(l: Seq<Seq<char>>) -> Seq<char>
    decreases l,
{
    if l.len() == 0 {
        seq![]
    } else if l.len() == 1 {
        tag_json(l[0])
    } else {
        tag_json(l[0]) + seq![','] + tags_inner(l.drop_first())
    }
}

/// A tag list as a JSON array of strings.
pub open spec fn tags_json(l: Seq<Seq<char>>) -> Seq<char> {
    seq!['['] + tags_inner(l) + seq![']']
}

/// One shard entry: the hex hash as a JSON key, then its tag list.
pub open spec fn entry_json(h: Seq<u8>, l: Seq<Seq<char>>) -> Seq<char> {
    seq!['"'] + hex_of(h) + seq!['"', ':'] + tags_json(l)
}

/// The body of a shard object.
pub open spec fn entries_inner(m: Seq<(Seq<u8>, Seq<Seq<char>>)>) -> Seq<char>
    decreases m,
{
    if m.len() == 0 {
        seq![]
    } else if m.len() == 1 {
        entry_json(m[0].0, m[0].1)
    } else {
        entry_json(m[0].0, m[0].1) + seq![','] + entries_inner(m.drop_first())
    }
}

/// A whole shard: a JSON object from hex hash to tag list, in entry order.
pub open spec fn shard_json(m: Seq<(Seq<u8>, Seq<Seq<char>>)>) -> Seq<char> {
    seq!['{'] + entries_inner(m) + seq!['}']
}

/// The bytes a sequence of hex characters decodes to, when each pair is a
/// lowercase hex digit pair.
pub open spec fn hex_decode(s: Seq<char>) -> Option<Seq<u8>>
    decreases s.len(),
{
    if s.len() == 0 {
        Option::Some(seq![])
    } else if s.len() == 1 {
        Option::None
    } else if hex_val(s[0]) < 0 || hex_val(s[1]) < 0 {
        Option::None
    } else {
        match hex_decode(s.skip(2)) {
            Option::None => Option::None,
            Option::Some(bs) => Option::Some(
                seq![(hex_val(s[0]) * 16 + hex_val(s[1])) as u8] + bs,
            ),
        }
    }
}

/// Hex decoding undoes hex rendering.
pub proof fn lemma_hex_decode_of(b: Seq<u8>)
    ensures
        hex_decode(hex_of(b)) == Option::Some(b),
    decreases b.len(),
{
    let s = hex_of(b);
    if b.len() > 0 {
        assert(s[0] == hex_digit(b[0] / 16));
        assert(s[1] == hex_digit(b[0] % 16));
        lemma_hex_val_digit((b[0] / 16) as int);
        lemma_hex_val_digit((b[0] % 16) as int);
        assert(hex_val(s[0]) == b[0] / 16);
        assert(hex_val(s[1]) == b[0] % 16);
        assert((b[0] / 16) * 16 + (b[0] % 16) == b[0]);
        lemma_hex_decode_of(b.drop_first());
        assert(s.skip(2) =~= hex_of(b.drop_first()));
        assert(seq![b[0]] + b.drop_first() =~= b);
    } else {
        assert(s.len() == 0);
    }
}

/// The value of a rendered hex digit.
proof fn lemma_hex_val_digit(x: int)
    requires
        0 <= x < 16,
    ensures
        hex_val(hex_digit(x as u8)) == x,
{
    if x < 10 {
    } else {
    }
}


/// Characters that JSON writes as themselves: not a quote, not a backslash,
/// not a control character.
pub open spec fn plain_char(c: char) -> bool {
    c != '"' && c != '\\' && c as u32 >= 32
}

/// A string of plain characters escapes to itself.
proof fn lemma_escape_plain(p: Seq<char>)
    requires
        forall|i: int| 0 <= i < p.len() ==> plain_char(#[trigger] p[i]),
    ensures
        escape(p) == p,
    decreases p.len(),
{
    if p.len() > 0 {
        assert(plain_char(p[0]));
        lemma_escape_plain(p.drop_first());
        assert(escape(p) =~= p);
    }
}

/// Hex renderings are plain.
proof fn lemma_hex_plain(b: Seq<u8>)
    ensures
        forall|i: int| 0 <= i < hex_of(b).len() ==> plain_char(#[trigger] hex_of(b)[i]),
{
    assert forall|i: int| 0 <= i < hex_of(b).len() implies plain_char(#[trigger] hex_of(b)[i]) by {
        if i % 2 == 0 {
            assert(hex_of(b)[i] == hex_digit(b[i / 2] / 16));
        } else {
            assert(hex_of(b)[i] == hex_digit(b[i / 2] % 16));
        }
    }
}

/// Read one quoted string, opening quote included.
pub open spec fn parse_tag(s: Seq<char>) -> Option<(Seq<char>, Seq<char>)> {
    if s.len() >= 1 && s[0] == '"' {
        parse_string(s.skip(1))
    } else {
        Option::None
    }
}

/// Read the rest of a non-empty tag array.
pub open spec fn parse_tags_rest(s: Seq<char>) -> Option<(Seq<Seq<char>>, Seq<char>)>
    decreases s.len(),
{
    match parse_tag(s) {
        Option::None => Option::None,
        Option::Some((t, r)) => {
            if r.len() >= 1 && r[0] == ',' {
                if r.len() < s.len() {
                    match parse_tags_rest(r.skip(1)) {
                        Option::None => Option::None,
                        Option::Some((ts, r2)) => Option::Some((seq![t] + ts, r2)),
                    }
                } else {
                    Option::None
                }
            } else if r.len() >= 1 && r[0] == ']' {
                Option::Some((seq![t], r.skip(1)))
            } else {
                Option::None
            }
        },
    }
}

/// Read a JSON array of tag strings.
pub open spec fn parse_tags(s: Seq<char>) -> Option<(Seq<Seq<char>>, Seq<char>)> {
    if s.len() >= 2 && s[0] == '[' && s[1] == ']' {
        Option::Some((seq![], s.skip(2)))
    } else if s.len() >= 1 && s[0] == '[' {
        parse_tags_rest(s.skip(1))
    } else {
        Option::None
    }
}

/// Read one shard entry: a 40-character hex key and its tag list.
pub open spec fn parse_entry(s: Seq<char>) -> Option<((Seq<u8>, Seq<Seq<char>>), Seq<char>)> {
    match parse_tag(s) {
        Option::None => Option::None,
        Option::Some((key, r)) => {
            if key.len() == 40 {
                match hex_decode(key) {
                    Option::None => Option::None,
                    Option::Some(h) => {
                        if r.len() >= 1 && r[0] == ':' {
                            match parse_tags(r.skip(1)) {
                                Option::None => Option::None,
                                Option::Some((ts, r2)) => Option::Some(((h, ts), r2)),
                            }
                        } else {
                            Option::None
                        }
                    },
                }
            } else {
                Option::None
            }
        },
    }
}

/// Read the rest of a non-empty shard body.
pub open spec fn parse_entries_rest(s: Seq<char>) -> Option<
    (Seq<(Seq<u8>, Seq<Seq<char>>)>, Seq<char>),
>
    decreases s.len(),
{
    match parse_entry(s) {
        Option::None => Option::None,
        Option::Some((e, r)) => {
            if r.len() >= 1 && r[0] == ',' {
                if r.len() < s.len() {
                    match parse_entries_rest(r.skip(1)) {
                        Option::None => Option::None,
                        Option::Some((es, r2)) => Option::Some((seq![e] + es, r2)),
                    }
                } else {
                    Option::None
                }
            } else if r.len() >= 1 && r[0] == '}' {
                Option::Some((seq![e], r.skip(1)))
            } else {
                Option::None
            }
        },
    }
}

/// Read a whole shard object; the input must hold nothing else.
pub open spec fn parse_shard(s: Seq<char>) -> Option<Seq<(Seq<u8>, Seq<Seq<char>>)>> {
    if s.len() >= 2 && s[0] == '{' && s[1] == '}' && s.len() == 2 {
        Option::Some(seq![])
    } else if s.len() >= 1 && s[0] == '{' {
        match parse_entries_rest(s.skip(1)) {
            Option::None => Option::None,
            Option::Some((es, r)) => {
                if r.len() == 0 {
                    Option::Some(es)
                } else {
                    Option::None
                }
            },
        }
    } else {
        Option::None
    }
}

/// Reading an emitted tag yields the tag back.
proof fn lemma_parse_tag(t: Seq<char>, rest: Seq<char>)
    ensures
        parse_tag(tag_json(t) + rest) == Option::Some((t, rest)),
{
    let s = tag_json(t) + rest;
    assert(s[0] == '"');
    assert(s.skip(1) =~= escape(t) + seq!['"'] + rest);
    lemma_parse_string(t, rest);
}

/// Reading an emitted tag-array body yields the tags back.
proof fn lemma_parse_tags_rest(l: Seq<Seq<char>>, rest: Seq<char>)
    requires
        l.len() >= 1,
    ensures
        parse_tags_rest(tags_inner(l) + seq![']'] + rest) == Option::Some((l, rest)),
    decreases l.len(),
{
    let s = tags_inner(l) + seq![']'] + rest;
    if l.len() == 1 {
        let tail = seq![']'] + rest;
        assert(s =~= tag_json(l[0]) + tail);
        lemma_parse_tag(l[0], tail);
        assert(tail.skip(1) =~= rest);
        assert(seq![l[0]] =~= l);
    } else {
        let tail = seq![','] + tags_inner(l.drop_first()) + seq![']'] + rest;
        assert(s =~= tag_json(l[0]) + tail);
        lemma_parse_tag(l[0], tail);
        assert(tail[0] == ',');
        assert(tag_json(l[0]).len() >= 2);
        assert(tail.len() < s.len());
        assert(tail.skip(1) =~= tags_inner(l.drop_first()) + seq![']'] + rest);
        lemma_parse_tags_rest(l.drop_first(), rest);
        assert(seq![l[0]] + l.drop_first() =~= l);
    }
}

/// Reading an emitted tag array yields the tags back.
proof fn lemma_parse_tags(l: Seq<Seq<char>>, rest: Seq<char>)
    ensures
        parse_tags(tags_json(l) + rest) == Option::Some((l, rest)),
{
    let s = tags_json(l) + rest;
    assert(s[0] == '[');
    if l.len() == 0 {
        assert(tags_inner(l) == Seq::<char>::empty());
        assert(s[1] == ']');
        assert(s.skip(2) =~= rest);
        assert(l =~= Seq::<Seq<char>>::empty());
    } else {
        assert(tags_inner(l).len() >= 2);
        assert(s[1] == tags_inner(l)[0]);
        assert(tags_inner(l)[0] == tag_json(l[0])[0]);
        assert(tag_json(l[0])[0] == '"');
        assert(s[1] != ']');
        assert(s.skip(1) =~= tags_inner(l) + seq![']'] + rest);
        lemma_parse_tags_rest(l, rest);
    }
}

/// Reading an emitted entry yields its hash and tags back.
proof fn lemma_parse_entry(h: Seq<u8>, l: Seq<Seq<char>>, rest: Seq<char>)
    requires
        h.len() == 20,
    ensures
        parse_entry(entry_json(h, l) + rest) == Option::Some(((h, l), rest)),
{
    let s = entry_json(h, l) + rest;
    let tail = seq![':'] + tags_json(l) + rest;
    assert(s[0] == '"');
    lemma_hex_plain(h);
    lemma_escape_plain(hex_of(h));
    assert(s.skip(1) =~= escape(hex_of(h)) + seq!['"'] + tail);
    lemma_parse_string(hex_of(h), tail);
    assert(parse_tag(s) == Option::Some((hex_of(h), tail)));
    lemma_hex_decode_of(h);
    assert(tail[0] == ':');
    assert(tail.skip(1) =~= tags_json(l) + rest);
    lemma_parse_tags(l, rest);
}

/// Reading an emitted shard body yields the entries back.
proof fn lemma_parse_entries_rest(m: Seq<(Seq<u8>, Seq<Seq<char>>)>, rest: Seq<char>)
    requires
        m.len() >= 1,
        forall|i: int| 0 <= i < m.len() ==> (#[trigger] m[i]).0.len() == 20,
    ensures
        parse_entries_rest(entries_inner(m) + seq!['}'] + rest) == Option::Some((m, rest)),
    decreases m.len(),
{
    let s = entries_inner(m) + seq!['}'] + rest;
    if m.len() == 1 {
        let tail = seq!['}'] + rest;
        assert(s =~= entry_json(m[0].0, m[0].1) + tail);
        lemma_parse_entry(m[0].0, m[0].1, tail);
        assert(tail.skip(1) =~= rest);
        assert(seq![m[0]] =~= m);
    } else {
        let tail = seq![','] + entries_inner(m.drop_first()) + seq!['}'] + rest;
        assert(s =~= entry_json(m[0].0, m[0].1) + tail);
        lemma_parse_entry(m[0].0, m[0].1, tail);
        assert(tail[0] == ',');
        assert(entry_json(m[0].0, m[0].1).len() >= 2);
        assert(tail.len() < s.len());
        assert(tail.skip(1) =~= entries_inner(m.drop_first()) + seq!['}'] + rest);
        assert(forall|i: int|
            0 <= i < m.drop_first().len() ==> (#[trigger] m.drop_first()[i]) == m[i + 1]);
        lemma_parse_entries_rest(m.drop_first(), rest);
        assert(seq![m[0]] + m.drop_first() =~= m);
    }
}

/// Round trip: reading an emitted shard yields the entries back.
pub proof fn lemma_shard_round_trip(m: Seq<(Seq<u8>, Seq<Seq<char>>)>)
    requires
        forall|i: int| 0 <= i < m.len() ==> (#[trigger] m[i]).0.len() == 20,
    ensures
        parse_shard(shard_json(m)) == Option::Some(m),
{
    let s = shard_json(m);
    assert(s[0] == '{');
    if m.len() == 0 {
        assert(entries_inner(m) == Seq::<char>::empty());
        assert(s.len() == 2);
        assert(s[1] == '}');
        assert(m =~= Seq::<(Seq<u8>, Seq<Seq<char>>)>::empty());
    } else {
        assert(entries_inner(m).len() >= 2);
        assert(s[1] == entries_inner(m)[0]);
        assert(entries_inner(m)[0] == entry_json(m[0].0, m[0].1)[0]);
        assert(entry_json(m[0].0, m[0].1)[0] == '"');
        assert(!(s.len() >= 2 && s[0] == '{' && s[1] == '}' && s.len() == 2));
        assert(s.skip(1) =~= entries_inner(m) + seq!['}'] + Seq::<char>::empty());
        lemma_parse_entries_rest(m, Seq::<char>::empty());
    }
}


/// The entries whose hash starts with the given byte: the shard that byte
/// names, in entry order.
pub open spec fn filter_first(m: Seq<(Seq<u8>, Seq<Seq<char>>)>, first: u8) -> Seq<
    (Seq<u8>, Seq<Seq<char>>),
>
    decreases m,
{
    if m.len() == 0 {
        seq![]
    } else {
        (if m[0].0.len() > 0 && m[0].0[0] == first {
            seq![m[0]]
        } else {
            seq![]
        }) + filter_first(m.drop_first(), first)
    }
}

/// Appending an entry appends it to its shard's selection, and to no other.
proof fn lemma_filter_first_push(m: Seq<(Seq<u8>, Seq<Seq<char>>)>, e: (Seq<u8>, Seq<Seq<char>>), first: u8)
    ensures
        filter_first(m.push(e), first) == (if e.0.len() > 0 && e.0[0] == first {
            filter_first(m, first).push(e)
        } else {
            filter_first(m, first)
        }),
    decreases m.len(),
{
    if m.len() == 0 {
        assert(m.push(e)[0] == e);
        assert(m.push(e).drop_first() =~= Seq::<(Seq<u8>, Seq<Seq<char>>)>::empty());
        assert(filter_first(Seq::<(Seq<u8>, Seq<Seq<char>>)>::empty(), first) == Seq::<
            (Seq<u8>, Seq<Seq<char>>),
        >::empty());
        if e.0.len() > 0 && e.0[0] == first {
            assert(filter_first(m.push(e), first) =~= filter_first(m, first).push(e));
        } else {
            assert(filter_first(m.push(e), first) =~= filter_first(m, first));
        }
    } else {
        assert(m.push(e)[0] == m[0]);
        assert(m.push(e).drop_first() =~= m.drop_first().push(e));
        lemma_filter_first_push(m.drop_first(), e, first);
        if e.0.len() > 0 && e.0[0] == first {
            assert(filter_first(m.push(e), first) =~= filter_first(m, first).push(e));
        } else {
            assert(filter_first(m.push(e), first) =~= filter_first(m, first));
        }
    }
}

/// Appending an entry appends its record to the body (the first entry brings
/// no comma).
proof fn lemma_entries_inner_push(m: Seq<(Seq<u8>, Seq<Seq<char>>)>, e: (Seq<u8>, Seq<Seq<char>>))
    ensures
        entries_inner(m.push(e)) == (if m.len() == 0 {
            entry_json(e.0, e.1)
        } else {
            entries_inner(m) + seq![','] + entry_json(e.0, e.1)
        }),
    decreases m.len(),
{
    if m.len() == 0 {
        assert(m.push(e)[0] == e);
        assert(entries_inner(m.push(e)) == entry_json(e.0, e.1));
    } else {
        assert(m.push(e)[0] == m[0]);
        assert(m.push(e).drop_first() =~= m.drop_first().push(e));
        lemma_entries_inner_push(m.drop_first(), e);
        if m.len() == 1 {
            assert(m.drop_first() =~= Seq::<(Seq<u8>, Seq<Seq<char>>)>::empty());
            assert(entries_inner(m.push(e)) =~= entries_inner(m) + seq![','] + entry_json(
                e.0,
                e.1,
            ));
        } else {
            assert(entries_inner(m.push(e)) =~= entries_inner(m) + seq![','] + entry_json(
                e.0,
                e.1,
            ));
        }
    }
}

/// Appending a tag appends its string to the body.
proof fn lemma_tags_inner_push(l: Seq<Seq<char>>, t: Seq<char>)
    ensures
        tags_inner(l.push(t)) == (if l.len() == 0 {
            tag_json(t)
        } else {
            tags_inner(l) + seq![','] + tag_json(t)
        }),
    decreases l.len(),
{
    if l.len() == 0 {
        assert(l.push(t)[0] == t);
        assert(tags_inner(l.push(t)) == tag_json(t));
    } else {
        assert(l.push(t)[0] == l[0]);
        assert(l.push(t).drop_first() =~= l.drop_first().push(t));
        lemma_tags_inner_push(l.drop_first(), t);
        if l.len() == 1 {
            assert(l.drop_first() =~= Seq::<Seq<char>>::empty());
            assert(tags_inner(l.push(t)) =~= tags_inner(l) + seq![','] + tag_json(t));
        } else {
            assert(tags_inner(l.push(t)) =~= tags_inner(l) + seq![','] + tag_json(t));
        }
    }
}

/// Append one entry's record: the quoted hex key, a colon, and the tag array.
fn push_entry_json(out: &mut Vec<char>, hash: &ObjectHash, tags: &Vec<String>)
    ensures
        final(out)@ == old(out)@ + entry_json(hash@, strs_views(tags@)),
{
    out.push('"');
    let mut hx = hash_chars(hash);
    out.append(&mut hx);
    out.push('"');
    out.push(':');
    out.push('[');
    let ghost l = strs_views(tags@);
    let ghost base = out@;
    proof {
        assert(l.take(0) =~= Seq::<Seq<char>>::empty());
        assert(tags_inner(Seq::<Seq<char>>::empty()) == Seq::<char>::empty());
        assert(out@ =~= base + tags_inner(l.take(0)));
    }
    let mut j: usize = 0;
    while j < tags.len()
        invariant
            j <= tags@.len(),
            l == strs_views(tags@),
            l.len() == tags@.len(),
            forall|k: int| 0 <= k < tags@.len() ==> l[k] == (#[trigger] tags@[k])@,
            out@ == base + tags_inner(l.take(j as int)),
        decreases tags@.len() - j,
    {
        if j > 0 {
            out.push(',');
        }
        out.push('"');
        push_escaped(out, tags[j].as_str());
        out.push('"');
        j = j + 1;
        proof {
            assert(l.take(j as int) =~= l.take(j as int - 1).push(l[j as int - 1]));
            lemma_tags_inner_push(l.take(j as int - 1), l[j as int - 1]);
            assert(out@ =~= base + tags_inner(l.take(j as int)));
        }
    }
    out.push(']');
    proof {
        assert(l.take(l.len() as int) =~= l);
        assert(out@ =~= old(out)@ + entry_json(hash@, l));
    }
}

/// Render the shard a byte names: the entries whose hash starts with that
/// byte, as one compact JSON object in entry order.
pub fn shard_to_json(rt: &RevTags, first: u8) -> (r: String)
    ensures
        r@ == shard_json(filter_first(rt@, first)),
{
    let entries = rt.entries_ref();
    let ghost pv = rt@;
    proof {
        assert(crate::rev_tags::pair_views(entries@) == pv);
    }
    let mut out: Vec<char> = Vec::new();
    out.push('{');
    let mut emitted: usize = 0;
    let mut i: usize = 0;
    proof {
        assert(pv.take(0) =~= Seq::<(Seq<u8>, Seq<Seq<char>>)>::empty());
        assert(filter_first(Seq::<(Seq<u8>, Seq<Seq<char>>)>::empty(), first) == Seq::<
            (Seq<u8>, Seq<Seq<char>>),
        >::empty());
        assert(out@ =~= seq!['{'] + entries_inner(filter_first(pv.take(0), first)));
    }
    while i < entries.len()
        invariant
            i <= entries@.len(),
            pv == crate::rev_tags::pair_views(entries@),
            pv.len() == entries@.len(),
            forall|k: int|
                0 <= k < entries@.len() ==> pv[k] == ((#[trigger] entries@[k]).0@, strs_views(
                    entries@[k].1@,
                )),
            out@ == seq!['{'] + entries_inner(filter_first(pv.take(i as int), first)),
            emitted == filter_first(pv.take(i as int), first).len(),
            emitted <= i,
        decreases entries@.len() - i,
    {
        let e = &entries[i];
        proof {
            assert(pv.take(i as int + 1) =~= pv.take(i as int).push(pv[i as int]));
            lemma_filter_first_push(pv.take(i as int), pv[i as int], first);
        }
        if e.0.len() > 0 && e.0.byte_at(0) == first {
            if emitted > 0 {
                out.push(',');
            }
            push_entry_json(&mut out, &e.0, &e.1);
            emitted = emitted + 1;
            proof {
                lemma_entries_inner_push(filter_first(pv.take(i as int), first), pv[i as int]);
                assert(out@ =~= seq!['{'] + entries_inner(
                    filter_first(pv.take(i as int + 1), first),
                ));
            }
        }
        i = i + 1;
    }
    out.push('}');
    proof {
        assert(pv.take(pv.len() as int) =~= pv);
        assert(out@ =~= shard_json(filter_first(pv, first)));
    }
    chars_to_string(&out)
}


/// A hex string of odd length decodes to nothing.
proof fn lemma_hex_decode_odd(s: Seq<char>)
    requires
        s.len() % 2 == 1,
    ensures
        hex_decode(s) is None,
    decreases s.len(),
{
    if s.len() > 1 && !(hex_val(s[0]) < 0 || hex_val(s[1]) < 0) {
        lemma_hex_decode_odd(s.skip(2));
    }
}

/// Decode a vector of hex characters to bytes.
fn hex_decode_chars(key: &Vec<char>) -> (r: Option<Vec<u8>>)
    ensures
        match r {
            Option::Some(bs) => hex_decode(key@) == Option::Some(bs@),
            Option::None => hex_decode(key@) is None,
        },
{
    let n = key.len();
    if n % 2 != 0 {
        proof {
            lemma_hex_decode_odd(key@);
        }
        return Option::None;
    }
    let mut out: Vec<u8> = Vec::new();
    let mut i: usize = 0;
    proof {
        assert(key@.skip(0) =~= key@);
    }
    while i + 1 < n
        invariant
            n == key@.len(),
            n % 2 == 0,
            i % 2 == 0,
            i <= n,
            hex_decode(key@) == (match hex_decode(key@.skip(i as int)) {
                Option::None => Option::<Seq<u8>>::None,
                Option::Some(bs) => Option::Some(out@ + bs),
            }),
        decreases n - i,
    {
        let ghost sfx = key@.skip(i as int);
        proof {
            assert(sfx[0] == key@[i as int]);
            assert(sfx[1] == key@[i as int + 1]);
            assert(sfx.skip(2) =~= key@.skip(i as int + 2));
        }
        let hi = match crate::codec::hex_val_ch(key[i]) {
            Option::Some(d) => d,
            Option::None => {
                return Option::None;
            },
        };
        let lo = match crate::codec::hex_val_ch(key[i + 1]) {
            Option::Some(d) => d,
            Option::None => {
                return Option::None;
            },
        };
        let ghost pre = out@;
        let byte: u8 = hi * 16 + lo;
        out.push(byte);
        i = i + 2;
        proof {
            assert(hex_decode(sfx) == (match hex_decode(key@.skip(i as int)) {
                Option::None => Option::<Seq<u8>>::None,
                Option::Some(bs) => Option::Some(seq![(hex_val(sfx[0]) * 16 + hex_val(sfx[1])) as u8] + bs),
            }));
            assert forall|bs: Seq<u8>| true implies pre + (seq![(hex_val(sfx[0]) * 16 + hex_val(
                sfx[1],
            )) as u8] + bs) =~= out@ + bs by {
                assert(out@ == pre.push(byte));
                assert((hex_val(sfx[0]) * 16 + hex_val(sfx[1])) as u8 == byte);
            }
            if hex_decode(key@.skip(i as int)) is Some {
                let bs = hex_decode(key@.skip(i as int))->0;
                assert(pre + (seq![(hex_val(sfx[0]) * 16 + hex_val(sfx[1])) as u8] + bs) =~= out@
                    + bs);
            }
        }
    }
    proof {
        assert(i == n);
        assert(key@.skip(n as int) =~= Seq::<char>::empty());
        assert(hex_decode(Seq::<char>::empty()) == Option::Some(Seq::<u8>::empty()));
        assert(out@ + Seq::<u8>::empty() =~= out@);
    }
    Option::Some(out)
}

/// Read one quoted string, opening quote included.
fn p_tag(v: &Vec<char>, pos: usize) -> (r: Option<(Vec<char>, usize)>)
    requires
        pos <= v@.len(),
    ensures
        match r {
            Option::Some(t) => parse_tag(v@.skip(pos as int)) == Option::Some(
                (t.0@, v@.skip(t.1 as int)),
            ) && pos < t.1 <= v@.len(),
            Option::None => parse_tag(v@.skip(pos as int)) is None,
        },
{
    let ghost sfx = v@.skip(pos as int);
    proof {
        if pos < v@.len() {
            assert(sfx[0] == v@[pos as int]);
        }
    }
    if pos < v.len() && v[pos] == '"' {
        proof {
            assert(sfx.skip(1) =~= v@.skip(pos as int + 1));
        }
        p_string(v, pos + 1)
    } else {
        Option::None
    }
}

/// Read the rest of a non-empty tag array.
fn p_tags_rest(v: &Vec<char>, pos: usize) -> (r: Option<(Vec<String>, usize)>)
    requires
        pos <= v@.len(),
    ensures
        match r {
            Option::Some(t) => parse_tags_rest(v@.skip(pos as int)) == Option::Some(
                (strs_views(t.0@), v@.skip(t.1 as int)),
            ) && pos < t.1 <= v@.len(),
            Option::None => parse_tags_rest(v@.skip(pos as int)) is None,
        },
    decreases v@.len() - pos,
{
    let ghost sfx = v@.skip(pos as int);
    match p_tag(v, pos) {
        Option::None => Option::None,
        Option::Some((tc, p1)) => {
            let tag = chars_to_string(&tc);
            proof {
                assert(v@.skip(p1 as int).len() == v@.len() - p1);
                if p1 < v@.len() {
                    assert(v@.skip(p1 as int)[0] == v@[p1 as int]);
                }
            }
            if p1 < v.len() && v[p1] == ',' {
                proof {
                    assert(v@.skip(p1 as int).len() < sfx.len());
                    assert(v@.skip(p1 as int).skip(1) =~= v@.skip(p1 as int + 1));
                }
                match p_tags_rest(v, p1 + 1) {
                    Option::None => Option::None,
                    Option::Some((ts2, p2)) => {
                        let ghost tailviews = strs_views(ts2@);
                        let mut out = ts2;
                        out.insert(0, tag);
                        proof {
                            assert(strs_views(out@) =~= seq![tc@] + tailviews);
                        }
                        Option::Some((out, p2))
                    },
                }
            } else if p1 < v.len() && v[p1] == ']' {
                let mut one: Vec<String> = Vec::new();
                let ghost tview = tag@;
                one.push(tag);
                proof {
                    assert(strs_views(one@) =~= seq![tc@]);
                    assert(v@.skip(p1 as int).skip(1) =~= v@.skip(p1 as int + 1));
                }
                Option::Some((one, p1 + 1))
            } else {
                Option::None
            }
        },
    }
}

/// Read a JSON array of tag strings.
fn p_tags(v: &Vec<char>, pos: usize) -> (r: Option<(Vec<String>, usize)>)
    requires
        pos <= v@.len(),
    ensures
        match r {
            Option::Some(t) => parse_tags(v@.skip(pos as int)) == Option::Some(
                (strs_views(t.0@), v@.skip(t.1 as int)),
            ) && pos < t.1 <= v@.len(),
            Option::None => parse_tags(v@.skip(pos as int)) is None,
        },
    decreases v@.len() - pos,
{
    let ghost sfx = v@.skip(pos as int);
    proof {
        if pos < v@.len() {
            assert(sfx[0] == v@[pos as int]);
        }
        if pos + 1 < v@.len() {
            assert(sfx[1] == v@[pos as int + 1]);
        }
    }
    if v.len() >= 2 && pos <= v.len() - 2 && v[pos] == '[' && v[pos + 1] == ']' {
        proof {
            assert(sfx.skip(2) =~= v@.skip(pos as int + 2));
        }
        let empty: Vec<String> = Vec::new();
        proof {
            assert(strs_views(empty@) =~= Seq::<Seq<char>>::empty());
        }
        Option::Some((empty, pos + 2))
    } else if pos < v.len() && v[pos] == '[' {
        proof {
            assert(sfx.skip(1) =~= v@.skip(pos as int + 1));
        }
        p_tags_rest(v, pos + 1)
    } else {
        Option::None
    }
}

/// Read one shard entry.
fn p_entry(v: &Vec<char>, pos: usize) -> (r: Option<((ObjectHash, Vec<String>), usize)>)
    requires
        pos <= v@.len(),
    ensures
        match r {
            Option::Some(t) => parse_entry(v@.skip(pos as int)) == Option::Some(
                ((t.0.0@, strs_views(t.0.1@)), v@.skip(t.1 as int)),
            ) && pos < t.1 <= v@.len() && t.0.0@.len() == 20,
            Option::None => parse_entry(v@.skip(pos as int)) is None,
        },
    decreases v@.len() - pos,
{
    let ghost sfx = v@.skip(pos as int);
    match p_tag(v, pos) {
        Option::None => Option::None,
        Option::Some((key, p1)) => {
            if key.len() != 40 {
                return Option::None;
            }
            let bytes = match hex_decode_chars(&key) {
                Option::None => {
                    return Option::None;
                },
                Option::Some(bs) => bs,
            };
            proof {
                lemma_hex_decode_len(key@);
            }
            let h = ObjectHash::from_bytes(bytes);
            proof {
                assert(v@.skip(p1 as int).len() == v@.len() - p1);
                if p1 < v@.len() {
                    assert(v@.skip(p1 as int)[0] == v@[p1 as int]);
                }
            }
            if p1 < v.len() && v[p1] == ':' {
                proof {
                    assert(v@.skip(p1 as int).skip(1) =~= v@.skip(p1 as int + 1));
                }
                match p_tags(v, p1 + 1) {
                    Option::None => Option::None,
                    Option::Some((ts, p2)) => Option::Some(((h, ts), p2)),
                }
            } else {
                Option::None
            }
        },
    }
}

/// A decoded hex string yields one byte per character pair.
proof fn lemma_hex_decode_len(s: Seq<char>)
    ensures
        hex_decode(s) is Some ==> hex_decode(s)->0.len() * 2 == s.len(),
    decreases s.len(),
{
    if s.len() > 1 && !(hex_val(s[0]) < 0 || hex_val(s[1]) < 0) {
        lemma_hex_decode_len(s.skip(2));
    }
}

/// Read the rest of a non-empty shard body.
fn p_entries_rest(v: &Vec<char>, pos: usize) -> (r: Option<(Vec<(ObjectHash, Vec<String>)>, usize)>)
    requires
        pos <= v@.len(),
    ensures
        match r {
            Option::Some(t) => parse_entries_rest(v@.skip(pos as int)) == Option::Some(
                (crate::rev_tags::pair_views(t.0@), v@.skip(t.1 as int)),
            ) && pos < t.1 <= v@.len(),
            Option::None => parse_entries_rest(v@.skip(pos as int)) is None,
        },
    decreases v@.len() - pos,
{
    let ghost sfx = v@.skip(pos as int);
    match p_entry(v, pos) {
        Option::None => Option::None,
        Option::Some((e, p1)) => {
            proof {
                assert(v@.skip(p1 as int).len() == v@.len() - p1);
                if p1 < v@.len() {
                    assert(v@.skip(p1 as int)[0] == v@[p1 as int]);
                }
            }
            if p1 < v.len() && v[p1] == ',' {
                proof {
                    assert(v@.skip(p1 as int).len() < sfx.len());
                    assert(v@.skip(p1 as int).skip(1) =~= v@.skip(p1 as int + 1));
                }
                match p_entries_rest(v, p1 + 1) {
                    Option::None => Option::None,
                    Option::Some((es2, p2)) => {
                        let ghost eview = (e.0@, strs_views(e.1@));
                        let ghost tailviews = crate::rev_tags::pair_views(es2@);
                        let mut out = es2;
                        out.insert(0, e);
                        proof {
                            assert(crate::rev_tags::pair_views(out@) =~= seq![eview] + tailviews);
                        }
                        Option::Some((out, p2))
                    },
                }
            } else if p1 < v.len() && v[p1] == '}' {
                let ghost eview = (e.0@, strs_views(e.1@));
                let mut one: Vec<(ObjectHash, Vec<String>)> = Vec::new();
                one.push(e);
                proof {
                    assert(crate::rev_tags::pair_views(one@) =~= seq![eview]);
                    assert(v@.skip(p1 as int).skip(1) =~= v@.skip(p1 as int + 1));
                }
                Option::Some((one, p1 + 1))
            } else {
                Option::None
            }
        },
    }
}

/// Decode one shard file: the hashes and their tag lists, in written order.
/// Fails exactly when the text is not a shard object as written here.
pub fn shard_from_json(s: &str) -> (r: Result<Vec<(ObjectHash, Vec<String>)>, CodecError>)
    ensures
        match r {
            Result::Ok(es) => parse_shard(s@) == Option::Some(crate::rev_tags::pair_views(es@)),
            Result::Err(_) => parse_shard(s@) is None,
        },
{
    let chars = str_to_chars(s);
    let n = chars.len();
    proof {
        if n >= 1 {
            assert(chars@.skip(0) =~= chars@);
        }
    }
    if n >= 2 && chars[0] == '{' && chars[1] == '}' && n == 2 {
        let empty: Vec<(ObjectHash, Vec<String>)> = Vec::new();
        proof {
            assert(crate::rev_tags::pair_views(empty@) =~= Seq::<(Seq<u8>, Seq<Seq<char>>)>::empty());
        }
        return Result::Ok(empty);
    }
    if n >= 1 && chars[0] == '{' {
        proof {
            assert(chars@.skip(1) == chars@.skip(0).skip(1));
            assert(chars@.skip(0).skip(1) =~= chars@.skip(1));
        }
        match p_entries_rest(&chars, 1) {
            Option::None => Result::Err(CodecError),
            Option::Some((es, p2)) => {
                if p2 == n {
                    proof {
                        assert(chars@.skip(p2 as int).len() == 0);
                    }
                    Result::Ok(es)
                } else {
                    proof {
                        assert(chars@.skip(p2 as int).len() > 0);
                    }
                    Result::Err(CodecError)
                }
            },
        }
    } else {
        Result::Err(CodecError)
    }
}

} // verus!
