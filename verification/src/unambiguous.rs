//! The canonical form can be read in one way only: two events with the same
//! canonical form have the same fields. Identifiers can therefore collide
//! only where the digest itself collides.
//!
//! Each lemma here reads one kind of item off the front of a canonical form:
//! from two equal byte strings that each start with an item of that kind, it
//! concludes that the two items are the same and that what follows them is
//! the same.

use vstd::prelude::*;
use vstd::utf8::*;
use crate::event::{
    decimal_chars, lemma_nonce_position, nonce_position, nonce_tag, with_nonce_tag, FinalizedEvent,
    UnsignedEventSkeleton, SCHEMA_VERSION,
};
use crate::encoding::{
    decimal, escape_byte, escaped, hex_digit, hex_lower, joined, lemma_decimal_digits,
    lemma_hex_unescaped, lemma_joined_concat, lemma_preimage_layout, preimage, quoted, tag_bytes,
    tag_items, tag_list_bytes, tag_list_items, text, BACKSLASH, CLOSE, COMMA, OPEN, QUOTE,
};

verus! {

/// A byte that is a decimal digit.
pub open spec fn is_digit(b: u8) -> bool {
    48 <= b <= 57
}

/// What follows a number: something, and not a digit.
pub open spec fn ends_number(rest: Seq<u8>) -> bool {
    rest.len() > 0 && !is_digit(rest[0])
}

/// What follows an item is the same when the item and the whole are the same.
proof fn lemma_same_rest(item: Seq<u8>, r1: Seq<u8>, r2: Seq<u8>)
    requires
        item + r1 == item + r2,
    ensures
        r1 == r2,
{
    assert(r1 =~= (item + r1).skip(item.len() as int));
    assert(r2 =~= (item + r2).skip(item.len() as int));
}

/// Different numbers have different decimals.
pub proof fn lemma_decimal_injective(a: nat, b: nat)
    requires
        decimal(a) == decimal(b),
    ensures
        a == b,
    decreases a,
{
    if a >= 10 {
        lemma_decimal_digits(a / 10);
        assert(decimal(a) == decimal(a / 10).push((48 + a % 10) as u8));
        assert(decimal(a).len() >= 2);
    } else {
        assert(decimal(a) == seq![(48 + a) as u8]);
    }
    if b >= 10 {
        lemma_decimal_digits(b / 10);
        assert(decimal(b) == decimal(b / 10).push((48 + b % 10) as u8));
        assert(decimal(b).len() >= 2);
    } else {
        assert(decimal(b) == seq![(48 + b) as u8]);
    }
    if a < 10 {
        assert(decimal(a)[0] == (48 + a) as u8);
        assert(decimal(b)[0] == (48 + b) as u8);
    } else {
        let da = decimal(a / 10);
        let db = decimal(b / 10);
        let la = (48 + a % 10) as u8;
        let lb = (48 + b % 10) as u8;
        assert(da =~= da.push(la).drop_last());
        assert(db =~= db.push(lb).drop_last());
        assert(da.push(la).last() == la);
        assert(db.push(lb).last() == lb);
        assert(da == db);
        assert(la == lb);
        lemma_decimal_injective(a / 10, b / 10);
        assert(a % 10 == b % 10);
    }
}

/// Reads a number that is followed by something other than a digit.
pub proof fn lemma_decimal_split(a: nat, b: nat, r1: Seq<u8>, r2: Seq<u8>)
    requires
        decimal(a) + r1 == decimal(b) + r2,
        ends_number(r1),
        ends_number(r2),
    ensures
        a == b,
        r1 == r2,
{
    let x = decimal(a);
    let y = decimal(b);
    let whole = x + r1;
    lemma_decimal_digits(a);
    lemma_decimal_digits(b);
    if x.len() < y.len() {
        assert(whole[x.len() as int] == r1[0]);
        assert((y + r2)[x.len() as int] == y[x.len() as int]);
        assert(is_digit(y[x.len() as int]));
    } else if y.len() < x.len() {
        assert((y + r2)[y.len() as int] == r2[0]);
        assert(whole[y.len() as int] == x[y.len() as int]);
        assert(is_digit(x[y.len() as int]));
    } else {
        assert(x =~= whole.take(x.len() as int));
        assert(y =~= (y + r2).take(y.len() as int));
        lemma_decimal_injective(a, b);
        lemma_same_rest(x, r1, r2);
    }
}

/// Different keys have different hexadecimal forms.
pub proof fn lemma_hex_injective(key1: Seq<u8>, key2: Seq<u8>)
    requires
        hex_lower(key1) == hex_lower(key2),
    ensures
        key1 == key2,
    decreases key1.len(),
{
    lemma_hex_unescaped(key1);
    lemma_hex_unescaped(key2);
    if key1.len() == 0 {
        assert(key1 =~= key2);
    } else {
        let h1 = hex_lower(key1);
        let h2 = hex_lower(key2);
        let f1 = key1.drop_last();
        let f2 = key2.drop_last();
        let n = h1.len() as int;
        assert(h1[n - 1] == hex_digit(key1.last() as int % 16));
        assert(h1[n - 2] == hex_digit(key1.last() as int / 16));
        assert(h2[n - 1] == hex_digit(key2.last() as int % 16));
        assert(h2[n - 2] == hex_digit(key2.last() as int / 16));
        assert(key1.last() == key2.last());
        assert(hex_lower(f1) =~= h1.take(n - 2));
        assert(hex_lower(f2) =~= h2.take(n - 2));
        lemma_hex_injective(f1, f2);
        assert(key1 =~= f1.push(key1.last()));
        assert(key2 =~= f2.push(key2.last()));
    }
}

/// The value of a lower-case hexadecimal digit.
pub open spec fn hex_value(c: u8) -> int {
    if c <= 57 {
        c - 48
    } else {
        c - 87
    }
}

/// The byte that the escape at the start of `x` stands for.
pub open spec fn first_unescaped(x: Seq<u8>) -> u8 {
    if x[0] != BACKSLASH {
        x[0]
    } else if x[1] == QUOTE {
        QUOTE
    } else if x[1] == BACKSLASH {
        BACKSLASH
    } else if x[1] == 0x62 {
        0x08
    } else if x[1] == 0x74 {
        0x09
    } else if x[1] == 0x6e {
        0x0a
    } else if x[1] == 0x66 {
        0x0c
    } else if x[1] == 0x72 {
        0x0d
    } else {
        (16 * hex_value(x[4]) + hex_value(x[5])) as u8
    }
}

/// An escape, whatever follows it, stands for the byte it was made from.
pub proof fn lemma_first_unescaped(b: u8, rest: Seq<u8>)
    ensures
        first_unescaped(escape_byte(b) + rest) == b,
{
    let e = escape_byte(b);
    let x = e + rest;
    assert(x[0] == e[0]);
    if b == QUOTE || b == BACKSLASH || b < 0x20 {
        assert(e[0] == BACKSLASH);
        assert(x[1] == e[1]);
        if b == QUOTE {
        } else if b == BACKSLASH {
        } else if b == 0x08 {
        } else if b == 0x09 {
        } else if b == 0x0a {
        } else if b == 0x0c {
        } else if b == 0x0d {
        } else {
            assert(e[1] == 0x75);
            assert(x[4] == e[4]);
            assert(x[5] == e[5]);
            assert(e[4] == hex_digit(b as int / 16));
            assert(e[5] == hex_digit(b as int % 16));
            assert(hex_value(e[4]) == b as int / 16);
            assert(hex_value(e[5]) == b as int % 16);
        }
    } else {
        assert(e == seq![b]);
    }
}

/// Reads one escaped byte: no escape is the start of another.
pub proof fn lemma_escape_byte_split(b1: u8, b2: u8, r1: Seq<u8>, r2: Seq<u8>)
    requires
        escape_byte(b1) + r1 == escape_byte(b2) + r2,
    ensures
        b1 == b2,
        r1 == r2,
{
    lemma_first_unescaped(b1, r1);
    lemma_first_unescaped(b2, r2);
    lemma_same_rest(escape_byte(b1), r1, r2);
}

/// The escaped form of two strings, one after the other.
pub proof fn lemma_escaped_concat(a: Seq<u8>, b: Seq<u8>)
    ensures
        escaped(a + b) == escaped(a) + escaped(b),
    decreases b.len(),
{
    if b.len() == 0 {
        assert(a + b =~= a);
        assert(escaped(a) + escaped(b) =~= escaped(a));
    } else {
        assert((a + b).drop_last() =~= a + b.drop_last());
        lemma_escaped_concat(a, b.drop_last());
        assert(escaped(a + b) =~= escaped(a) + escaped(b));
    }
}

/// The escaped form of a string starts with the escape of its first byte.
pub proof fn lemma_escaped_first(s: Seq<u8>)
    requires
        s.len() > 0,
    ensures
        escaped(s) == escape_byte(s[0]) + escaped(s.drop_first()),
        escaped(s).len() > 0,
        escaped(s)[0] != QUOTE,
{
    let first = seq![s[0]];
    assert(s =~= first + s.drop_first());
    lemma_escaped_concat(first, s.drop_first());
    assert(first.drop_last() =~= Seq::<u8>::empty());
    assert(escaped(Seq::<u8>::empty()) =~= Seq::<u8>::empty());
    assert(first.last() == s[0]);
    assert(escaped(first) =~= escaped(first.drop_last()) + escape_byte(first.last()));
    assert(escaped(first) =~= escape_byte(s[0]));
    assert(escaped(s)[0] == escape_byte(s[0])[0]);
}

/// Reads the inside of a string up to its closing quote.
pub proof fn lemma_escaped_split(s1: Seq<u8>, s2: Seq<u8>, r1: Seq<u8>, r2: Seq<u8>)
    requires
        escaped(s1) + r1 == escaped(s2) + r2,
        r1.len() > 0 && r1[0] == QUOTE,
        r2.len() > 0 && r2[0] == QUOTE,
    ensures
        s1 == s2,
        r1 == r2,
    decreases s1.len(),
{
    let x = escaped(s1) + r1;
    let y = escaped(s2) + r2;
    if s1.len() == 0 {
        if s2.len() > 0 {
            lemma_escaped_first(s2);
            assert(x[0] == r1[0]);
            assert(y[0] == escaped(s2)[0]);
        }
        assert(s1 =~= s2);
        assert(x =~= r1);
        assert(y =~= r2);
    } else if s2.len() == 0 {
        lemma_escaped_first(s1);
        assert(y[0] == r2[0]);
        assert(x[0] == escaped(s1)[0]);
    } else {
        lemma_escaped_first(s1);
        lemma_escaped_first(s2);
        let t1 = s1.drop_first();
        let t2 = s2.drop_first();
        assert(x =~= escape_byte(s1[0]) + (escaped(t1) + r1));
        assert(y =~= escape_byte(s2[0]) + (escaped(t2) + r2));
        lemma_escape_byte_split(s1[0], s2[0], escaped(t1) + r1, escaped(t2) + r2);
        lemma_escaped_split(t1, t2, r1, r2);
        assert(s1 =~= seq![s1[0]] + t1);
        assert(s2 =~= seq![s2[0]] + t2);
    }
}

/// Reads a quoted string.
pub proof fn lemma_quoted_split(s1: Seq<u8>, s2: Seq<u8>, r1: Seq<u8>, r2: Seq<u8>)
    requires
        quoted(s1) + r1 == quoted(s2) + r2,
    ensures
        s1 == s2,
        r1 == r2,
{
    let q = seq![QUOTE];
    let a1 = escaped(s1) + (q + r1);
    let a2 = escaped(s2) + (q + r2);
    assert(quoted(s1) + r1 =~= q + a1);
    assert(quoted(s2) + r2 =~= q + a2);
    lemma_same_rest(q, a1, a2);
    lemma_escaped_split(s1, s2, q + r1, q + r2);
    lemma_same_rest(q, r1, r2);
}

/// Reads a text.
pub proof fn lemma_text_split(c1: Seq<char>, c2: Seq<char>, r1: Seq<u8>, r2: Seq<u8>)
    requires
        text(c1) + r1 == text(c2) + r2,
    ensures
        c1 == c2,
        r1 == r2,
{
    lemma_quoted_split(encode_utf8(c1), encode_utf8(c2), r1, r2);
    encode_utf8_decode_utf8(c1);
    encode_utf8_decode_utf8(c2);
}

/// A list of items starts with its first item; a comma and the other items
/// follow where there are any.
pub proof fn lemma_joined_first(items: Seq<Seq<u8>>)
    requires
        items.len() > 0,
    ensures
        joined(items) == items[0] + if items.len() > 1 {
            seq![COMMA] + joined(items.drop_first())
        } else {
            seq![]
        },
{
    let first = seq![items[0]];
    let others = items.drop_first();
    assert(items =~= first + others);
    lemma_joined_concat(first, others);
    assert(joined(first) == items[0]);
    if items.len() > 1 {
        assert(items[0] + seq![COMMA] + joined(others) =~= items[0] + (seq![COMMA] + joined(
            others,
        )));
    } else {
        assert(items[0] =~= items[0] + seq![]);
    }
}

/// Reads the fields of a tag up to its closing bracket.
pub proof fn lemma_fields_split(
    t1: Seq<Seq<char>>,
    t2: Seq<Seq<char>>,
    r1: Seq<u8>,
    r2: Seq<u8>,
)
    requires
        joined(tag_items(t1)) + r1 == joined(tag_items(t2)) + r2,
        r1.len() > 0 && r1[0] == CLOSE,
        r2.len() > 0 && r2[0] == CLOSE,
    ensures
        t1 == t2,
        r1 == r2,
    decreases t1.len(),
{
    let i1 = tag_items(t1);
    let i2 = tag_items(t2);
    let x = joined(i1) + r1;
    let y = joined(i2) + r2;
    if t1.len() == 0 || t2.len() == 0 {
        if t1.len() > 0 {
            lemma_joined_first(i1);
            assert(x[0] == text(t1[0])[0]);
            assert(y[0] == r2[0]);
        }
        if t2.len() > 0 {
            lemma_joined_first(i2);
            assert(y[0] == text(t2[0])[0]);
            assert(x[0] == r1[0]);
        }
        assert(t1 =~= t2);
        assert(x =~= r1);
        assert(y =~= r2);
    } else {
        lemma_joined_first(i1);
        lemma_joined_first(i2);
        let d1 = t1.drop_first();
        let d2 = t2.drop_first();
        assert(tag_items(d1) =~= i1.drop_first());
        assert(tag_items(d2) =~= i2.drop_first());
        let c = seq![COMMA];
        let m1 = if t1.len() > 1 {
            c + (joined(tag_items(d1)) + r1)
        } else {
            r1
        };
        let m2 = if t2.len() > 1 {
            c + (joined(tag_items(d2)) + r2)
        } else {
            r2
        };
        assert(x =~= text(t1[0]) + m1);
        assert(y =~= text(t2[0]) + m2);
        lemma_text_split(t1[0], t2[0], m1, m2);
        assert(m1[0] == m2[0]);
        if t1.len() > 1 {
            assert(t2.len() > 1);
            lemma_same_rest(c, joined(tag_items(d1)) + r1, joined(tag_items(d2)) + r2);
            lemma_fields_split(d1, d2, r1, r2);
        } else {
            assert(t2.len() == 1);
            assert(d1 =~= d2);
        }
        assert(t1 =~= seq![t1[0]] + d1);
        assert(t2 =~= seq![t2[0]] + d2);
    }
}

/// Reads a tag.
pub proof fn lemma_tag_split(t1: Seq<Seq<char>>, t2: Seq<Seq<char>>, r1: Seq<u8>, r2: Seq<u8>)
    requires
        tag_bytes(t1) + r1 == tag_bytes(t2) + r2,
    ensures
        t1 == t2,
        r1 == r2,
{
    let o = seq![OPEN];
    let c = seq![CLOSE];
    let a1 = joined(tag_items(t1)) + (c + r1);
    let a2 = joined(tag_items(t2)) + (c + r2);
    assert(tag_bytes(t1) + r1 =~= o + a1);
    assert(tag_bytes(t2) + r2 =~= o + a2);
    lemma_same_rest(o, a1, a2);
    lemma_fields_split(t1, t2, c + r1, c + r2);
    lemma_same_rest(c, r1, r2);
}

/// Reads the tags of a tag list up to its closing bracket.
pub proof fn lemma_tags_split(
    l1: Seq<Seq<Seq<char>>>,
    l2: Seq<Seq<Seq<char>>>,
    r1: Seq<u8>,
    r2: Seq<u8>,
)
    requires
        joined(tag_list_items(l1)) + r1 == joined(tag_list_items(l2)) + r2,
        r1.len() > 0 && r1[0] == CLOSE,
        r2.len() > 0 && r2[0] == CLOSE,
    ensures
        l1 == l2,
        r1 == r2,
    decreases l1.len(),
{
    let i1 = tag_list_items(l1);
    let i2 = tag_list_items(l2);
    let x = joined(i1) + r1;
    let y = joined(i2) + r2;
    if l1.len() == 0 || l2.len() == 0 {
        if l1.len() > 0 {
            lemma_joined_first(i1);
            assert(x[0] == tag_bytes(l1[0])[0]);
            assert(y[0] == r2[0]);
        }
        if l2.len() > 0 {
            lemma_joined_first(i2);
            assert(y[0] == tag_bytes(l2[0])[0]);
            assert(x[0] == r1[0]);
        }
        assert(l1 =~= l2);
        assert(x =~= r1);
        assert(y =~= r2);
    } else {
        lemma_joined_first(i1);
        lemma_joined_first(i2);
        let d1 = l1.drop_first();
        let d2 = l2.drop_first();
        assert(tag_list_items(d1) =~= i1.drop_first());
        assert(tag_list_items(d2) =~= i2.drop_first());
        let c = seq![COMMA];
        let m1 = if l1.len() > 1 {
            c + (joined(tag_list_items(d1)) + r1)
        } else {
            r1
        };
        let m2 = if l2.len() > 1 {
            c + (joined(tag_list_items(d2)) + r2)
        } else {
            r2
        };
        assert(x =~= tag_bytes(l1[0]) + m1);
        assert(y =~= tag_bytes(l2[0]) + m2);
        lemma_tag_split(l1[0], l2[0], m1, m2);
        assert(m1[0] == m2[0]);
        if l1.len() > 1 {
            assert(l2.len() > 1);
            lemma_same_rest(c, joined(tag_list_items(d1)) + r1, joined(tag_list_items(d2)) + r2);
            lemma_tags_split(d1, d2, r1, r2);
        } else {
            assert(l2.len() == 1);
            assert(d1 =~= d2);
        }
        assert(l1 =~= seq![l1[0]] + d1);
        assert(l2 =~= seq![l2[0]] + d2);
    }
}

/// Reads a tag list.
pub proof fn lemma_tag_list_split(
    l1: Seq<Seq<Seq<char>>>,
    l2: Seq<Seq<Seq<char>>>,
    r1: Seq<u8>,
    r2: Seq<u8>,
)
    requires
        tag_list_bytes(l1) + r1 == tag_list_bytes(l2) + r2,
    ensures
        l1 == l2,
        r1 == r2,
{
    let o = seq![OPEN];
    let c = seq![CLOSE];
    let a1 = joined(tag_list_items(l1)) + (c + r1);
    let a2 = joined(tag_list_items(l2)) + (c + r2);
    assert(tag_list_bytes(l1) + r1 =~= o + a1);
    assert(tag_list_bytes(l2) + r2 =~= o + a2);
    lemma_same_rest(o, a1, a2);
    lemma_tags_split(l1, l2, c + r1, c + r2);
    lemma_same_rest(c, r1, r2);
}

/// What follows the opening bracket of a canonical form, item by item.
pub open spec fn after_version(
    author_public_key: Seq<u8>,
    created_at: nat,
    kind: nat,
    tags: Seq<Seq<Seq<char>>>,
    content: Seq<char>,
) -> Seq<u8> {
    seq![COMMA] + (quoted(hex_lower(author_public_key)) + after_key(
        created_at,
        kind,
        tags,
        content,
    ))
}

/// What follows the author's key.
pub open spec fn after_key(
    created_at: nat,
    kind: nat,
    tags: Seq<Seq<Seq<char>>>,
    content: Seq<char>,
) -> Seq<u8> {
    seq![COMMA] + (decimal(created_at) + after_created_at(kind, tags, content))
}

/// What follows the time of creation.
pub open spec fn after_created_at(kind: nat, tags: Seq<Seq<Seq<char>>>, content: Seq<char>) -> Seq<
    u8,
> {
    seq![COMMA] + (decimal(kind) + after_kind(tags, content))
}

/// What follows the kind.
pub open spec fn after_kind(tags: Seq<Seq<Seq<char>>>, content: Seq<char>) -> Seq<u8> {
    seq![COMMA] + (tag_list_bytes(tags) + after_tags(content))
}

/// What follows the tag list.
pub open spec fn after_tags(content: Seq<char>) -> Seq<u8> {
    seq![COMMA] + (text(content) + seq![CLOSE])
}

/// The canonical form as its first item and what follows it.
pub proof fn lemma_preimage_items(
    version: nat,
    author_public_key: Seq<u8>,
    created_at: nat,
    kind: nat,
    tags: Seq<Seq<Seq<char>>>,
    content: Seq<char>,
)
    ensures
        preimage(version, author_public_key, created_at, kind, tags, content) == seq![OPEN] + (
        decimal(version) + after_version(author_public_key, created_at, kind, tags, content)),
{
    lemma_preimage_layout(version, author_public_key, created_at, kind, tags, content);
    let a = decimal(version);
    let b = quoted(hex_lower(author_public_key));
    let c = decimal(created_at);
    let d = decimal(kind);
    let e = tag_list_bytes(tags);
    let f = text(content);
    let comma = seq![COMMA];
    let r5 = comma + (f + seq![CLOSE]);
    let r4 = comma + (e + r5);
    let r3 = comma + (d + r4);
    let r2 = comma + (c + r3);
    let r1 = comma + (b + r2);
    assert(r5 == after_tags(content));
    assert(r4 == after_kind(tags, content));
    assert(r3 == after_created_at(kind, tags, content));
    assert(r2 == after_key(created_at, kind, tags, content));
    assert(r1 == after_version(author_public_key, created_at, kind, tags, content));
    let front = seq![OPEN] + a + comma + b + comma + c + comma + d + comma;
    assert(front + e + (comma + f + seq![CLOSE]) =~= seq![OPEN] + (a + r1));
}

/// Two events with the same canonical form have the same fields: the
/// serialization is injective.
pub proof fn lemma_preimage_injective(
    version1: nat,
    author_public_key1: Seq<u8>,
    created_at1: nat,
    kind1: nat,
    tags1: Seq<Seq<Seq<char>>>,
    content1: Seq<char>,
    version2: nat,
    author_public_key2: Seq<u8>,
    created_at2: nat,
    kind2: nat,
    tags2: Seq<Seq<Seq<char>>>,
    content2: Seq<char>,
)
    requires
        preimage(version1, author_public_key1, created_at1, kind1, tags1, content1) == preimage(
            version2,
            author_public_key2,
            created_at2,
            kind2,
            tags2,
            content2,
        ),
    ensures
        version1 == version2,
        author_public_key1 == author_public_key2,
        created_at1 == created_at2,
        kind1 == kind2,
        tags1 == tags2,
        content1 == content2,
{
    let open = seq![OPEN];
    let comma = seq![COMMA];
    let close = seq![CLOSE];
    lemma_preimage_items(version1, author_public_key1, created_at1, kind1, tags1, content1);
    lemma_preimage_items(version2, author_public_key2, created_at2, kind2, tags2, content2);
    let v1 = after_version(author_public_key1, created_at1, kind1, tags1, content1);
    let v2 = after_version(author_public_key2, created_at2, kind2, tags2, content2);
    lemma_same_rest(open, decimal(version1) + v1, decimal(version2) + v2);
    lemma_decimal_split(version1, version2, v1, v2);

    let k1 = after_key(created_at1, kind1, tags1, content1);
    let k2 = after_key(created_at2, kind2, tags2, content2);
    let h1 = hex_lower(author_public_key1);
    let h2 = hex_lower(author_public_key2);
    lemma_same_rest(comma, quoted(h1) + k1, quoted(h2) + k2);
    lemma_quoted_split(h1, h2, k1, k2);
    lemma_hex_injective(author_public_key1, author_public_key2);

    let c1 = after_created_at(kind1, tags1, content1);
    let c2 = after_created_at(kind2, tags2, content2);
    lemma_same_rest(comma, decimal(created_at1) + c1, decimal(created_at2) + c2);
    lemma_decimal_split(created_at1, created_at2, c1, c2);

    let n1 = after_kind(tags1, content1);
    let n2 = after_kind(tags2, content2);
    lemma_same_rest(comma, decimal(kind1) + n1, decimal(kind2) + n2);
    lemma_decimal_split(kind1, kind2, n1, n2);

    let t1 = after_tags(content1);
    let t2 = after_tags(content2);
    lemma_same_rest(comma, tag_list_bytes(tags1) + t1, tag_list_bytes(tags2) + t2);
    lemma_tag_list_split(tags1, tags2, t1, t2);

    lemma_same_rest(comma, text(content1) + close, text(content2) + close);
    lemma_text_split(content1, content2, close, close);
}

/// Different numbers have different digits as characters.
pub proof fn lemma_decimal_chars_injective(a: nat, b: nat)
    requires
        decimal_chars(a) == decimal_chars(b),
    ensures
        a == b,
{
    lemma_decimal_digits(a);
    lemma_decimal_digits(b);
    assert(decimal_chars(a).len() == decimal(a).len());
    assert(decimal_chars(b).len() == decimal(b).len());
    assert forall|i: int| 0 <= i < decimal(a).len() implies decimal(a)[i] == decimal(b)[i] by {
        let x = decimal(a)[i];
        let y = decimal(b)[i];
        assert(is_digit(x));
        assert(is_digit(y));
        assert(decimal_chars(a)[i] == x as char);
        assert(decimal_chars(b)[i] == y as char);
        assert((x as char) as u8 == x);
        assert((y as char) as u8 == y);
    }
    assert(decimal(a) =~= decimal(b));
    lemma_decimal_injective(a, b);
}

/// Changing the author's key, the time of creation, the kind or the content
/// of an event, with the nonce held fixed, changes its canonical form.
pub proof fn lemma_changed_field_changes_preimage(
    a: UnsignedEventSkeleton,
    b: UnsignedEventSkeleton,
    nonce: nat,
    difficulty: nat,
)
    requires
        a.author_public_key@ != b.author_public_key@ || a.created_at != b.created_at || a.kind
            != b.kind || a.content@ != b.content@,
    ensures
        a.preimage_with(nonce, difficulty) != b.preimage_with(nonce, difficulty),
{
    if a.preimage_with(nonce, difficulty) == b.preimage_with(nonce, difficulty) {
        lemma_preimage_injective(
            SCHEMA_VERSION as nat,
            a.author_public_key@,
            a.created_at as nat,
            a.kind as nat,
            with_nonce_tag(a.tags.deep_view(), nonce, difficulty),
            a.content@,
            SCHEMA_VERSION as nat,
            b.author_public_key@,
            b.created_at as nat,
            b.kind as nat,
            with_nonce_tag(b.tags.deep_view(), nonce, difficulty),
            b.content@,
        );
    }
}

/// Two nonces give one event two canonical forms: no candidate of a search
/// is tried under two nonces.
pub proof fn lemma_nonce_changes_preimage(
    skeleton: UnsignedEventSkeleton,
    nonce1: nat,
    nonce2: nat,
    difficulty: nat,
)
    requires
        nonce1 != nonce2,
    ensures
        skeleton.preimage_with(nonce1, difficulty) != skeleton.preimage_with(nonce2, difficulty),
{
    if skeleton.preimage_with(nonce1, difficulty) == skeleton.preimage_with(nonce2, difficulty) {
        let tags = skeleton.tags.deep_view();
        let list1 = with_nonce_tag(tags, nonce1, difficulty);
        let list2 = with_nonce_tag(tags, nonce2, difficulty);
        lemma_preimage_injective(
            SCHEMA_VERSION as nat,
            skeleton.author_public_key@,
            skeleton.created_at as nat,
            skeleton.kind as nat,
            list1,
            skeleton.content@,
            SCHEMA_VERSION as nat,
            skeleton.author_public_key@,
            skeleton.created_at as nat,
            skeleton.kind as nat,
            list2,
            skeleton.content@,
        );
        lemma_nonce_position(tags);
        let position = nonce_position(tags);
        assert(list1[position] == nonce_tag(nonce1, difficulty));
        assert(list2[position] == nonce_tag(nonce2, difficulty));
        assert(nonce_tag(nonce1, difficulty)[1] == decimal_chars(nonce1));
        assert(nonce_tag(nonce2, difficulty)[1] == decimal_chars(nonce2));
        lemma_decimal_chars_injective(nonce1, nonce2);
    }
}

/// Two finalized events that differ in a field have different canonical
/// forms, so their identifiers are digests of different bytes.
pub proof fn lemma_distinct_events_distinct_preimages(a: FinalizedEvent, b: FinalizedEvent)
    requires
        a.author_public_key@ != b.author_public_key@ || a.created_at != b.created_at || a.kind
            != b.kind || a.tags.deep_view() != b.tags.deep_view() || a.content@ != b.content@,
    ensures
        a.preimage() != b.preimage(),
{
    if a.preimage() == b.preimage() {
        lemma_preimage_injective(
            SCHEMA_VERSION as nat,
            a.author_public_key@,
            a.created_at as nat,
            a.kind as nat,
            a.tags.deep_view(),
            a.content@,
            SCHEMA_VERSION as nat,
            b.author_public_key@,
            b.created_at as nat,
            b.kind as nat,
            b.tags.deep_view(),
            b.content@,
        );
    }
}

} // verus!
