//! The canonical serialization of an event: the bytes whose digest is the
//! event's identifier.
//!
//! The form is a six-element array without any whitespace:
//! `[version,"author key in lower-case hex",created_at,kind,tags,"content"]`.
//! Integers are bare decimals, `tags` is an array of arrays of strings, and
//! strings are quoted with the shortest escape for each byte that needs one.

use vstd::prelude::*;
use vstd::utf8::*;

verus! {

/// The double quote that starts and ends a string.
pub const QUOTE: u8 = 0x22;

/// The backslash that starts an escape.
pub const BACKSLASH: u8 = 0x5c;

/// The comma between two items of an array.
pub const COMMA: u8 = 0x2c;

/// The bracket that opens an array.
pub const OPEN: u8 = 0x5b;

/// The bracket that closes an array.
pub const CLOSE: u8 = 0x5d;

/// `n` in decimal: no sign, no leading zeros, `0` for zero.
pub open spec fn decimal(n: nat) -> Seq<u8>
    decreases n,
{
    if n < 10 {
        seq![(48 + n) as u8]
    } else {
        decimal(n / 10).push((48 + n % 10) as u8)
    }
}

/// The lower-case hexadecimal digit for a value below 16.
pub open spec fn hex_digit(v: int) -> u8 {
    if v < 10 {
        (48 + v) as u8
    } else {
        (87 + v) as u8
    }
}

/// Two lower-case hexadecimal digits for each byte, high nibble first.
pub open spec fn hex_lower(bytes: Seq<u8>) -> Seq<u8>
    decreases bytes.len(),
{
    if bytes.len() == 0 {
        seq![]
    } else {
        hex_lower(bytes.drop_last()).push(hex_digit(bytes.last() as int / 16)).push(
            hex_digit(bytes.last() as int % 16),
        )
    }
}

/// How one byte of a string is written between the quotes.
///
/// The quote and the backslash get a backslash in front. Of the control
/// bytes, backspace, tab, line feed, form feed and carriage return have a
/// letter; the others are written as `\u00` and two hexadecimal digits. Every
/// other byte, and so every byte of a multi-byte character, stands for itself.
pub open spec fn escape_byte(b: u8) -> Seq<u8> {
    if b == QUOTE {
        seq![BACKSLASH, QUOTE]
    } else if b == BACKSLASH {
        seq![BACKSLASH, BACKSLASH]
    } else if b == 0x08 {
        seq![BACKSLASH, 0x62u8]
    } else if b == 0x09 {
        seq![BACKSLASH, 0x74u8]
    } else if b == 0x0a {
        seq![BACKSLASH, 0x6eu8]
    } else if b == 0x0c {
        seq![BACKSLASH, 0x66u8]
    } else if b == 0x0d {
        seq![BACKSLASH, 0x72u8]
    } else if b < 0x20 {
        seq![BACKSLASH, 0x75u8, 0x30u8, 0x30u8, hex_digit(b as int / 16), hex_digit(b as int % 16)]
    } else {
        seq![b]
    }
}

/// The bytes of a string with each one escaped.
pub open spec fn escaped(s: Seq<u8>) -> Seq<u8>
    decreases s.len(),
{
    if s.len() == 0 {
        seq![]
    } else {
        escaped(s.drop_last()) + escape_byte(s.last())
    }
}

/// A string of bytes as it stands in the canonical form: escaped, in quotes.
pub open spec fn quoted(s: Seq<u8>) -> Seq<u8> {
    seq![QUOTE] + escaped(s) + seq![QUOTE]
}

/// A text as it stands in the canonical form: its UTF-8 bytes, quoted.
pub open spec fn text(s: Seq<char>) -> Seq<u8> {
    quoted(encode_utf8(s))
}

/// The items in order with a comma between each two.
pub open spec fn joined(items: Seq<Seq<u8>>) -> Seq<u8>
    decreases items.len(),
{
    if items.len() == 0 {
        seq![]
    } else if items.len() == 1 {
        items[0]
    } else {
        joined(items.drop_last()) + seq![COMMA] + items.last()
    }
}

/// An array of already serialized items.
pub open spec fn array(items: Seq<Seq<u8>>) -> Seq<u8> {
    seq![OPEN] + joined(items) + seq![CLOSE]
}

/// The serialized fields of one tag.
pub open spec fn tag_items(tag: Seq<Seq<char>>) -> Seq<Seq<u8>> {
    Seq::new(tag.len(), |i: int| text(tag[i]))
}

/// One tag: an array of strings.
pub open spec fn tag_bytes(tag: Seq<Seq<char>>) -> Seq<u8> {
    array(tag_items(tag))
}

/// The serialized tags of a tag list.
pub open spec fn tag_list_items(tags: Seq<Seq<Seq<char>>>) -> Seq<Seq<u8>> {
    Seq::new(tags.len(), |i: int| tag_bytes(tags[i]))
}

/// The tag list: an array of tags.
pub open spec fn tag_list_bytes(tags: Seq<Seq<Seq<char>>>) -> Seq<u8> {
    array(tag_list_items(tags))
}

/// The canonical serialization of an event's fields.
pub open spec fn preimage(
    version: nat,
    author_public_key: Seq<u8>,
    created_at: nat,
    kind: nat,
    tags: Seq<Seq<Seq<char>>>,
    content: Seq<char>,
) -> Seq<u8> {
    array(
        seq![
            decimal(version),
            quoted(hex_lower(author_public_key)),
            decimal(created_at),
            decimal(kind),
            tag_list_bytes(tags),
            text(content),
        ],
    )
}

/// Appends `n` in decimal.
pub fn push_decimal(buf: &mut Vec<u8>, n: u128)
    ensures
        final(buf)@ == old(buf)@ + decimal(n as nat),
    decreases n,
{
    if n >= 10 {
        push_decimal(buf, n / 10);
    }
    let digit: u8 = (n % 10) as u8;
    buf.push(48 + digit);
    proof {
        if n >= 10 {
            assert(final(buf)@ =~= old(buf)@ + decimal((n / 10) as nat).push((48 + n % 10) as u8));
        } else {
            assert(final(buf)@ =~= old(buf)@ + seq![(48 + n) as u8]);
        }
    }
}


/// `joined` of a list that grows by one item.
pub proof fn lemma_joined_push(items: Seq<Seq<u8>>, item: Seq<u8>)
    ensures
        joined(items.push(item)) == if items.len() == 0 {
            item
        } else {
            joined(items) + seq![COMMA] + item
        },
{
    assert(items.push(item).drop_last() =~= items);
}

/// `joined` of two lists, one after the other.
pub proof fn lemma_joined_concat(a: Seq<Seq<u8>>, b: Seq<Seq<u8>>)
    ensures
        joined(a + b) == if a.len() == 0 {
            joined(b)
        } else if b.len() == 0 {
            joined(a)
        } else {
            joined(a) + seq![COMMA] + joined(b)
        },
    decreases b.len(),
{
    if a.len() == 0 {
        assert(a + b =~= b);
    } else if b.len() == 0 {
        assert(a + b =~= a);
    } else {
        let front = b.drop_last();
        assert((a + b).drop_last() =~= a + front);
        lemma_joined_concat(a, front);
        if front.len() == 0 {
            assert(joined(a + b) =~= joined(a) + seq![COMMA] + joined(b));
        } else {
            assert(joined(a + b) =~= joined(a) + seq![COMMA] + joined(b));
        }
    }
}

/// The lower-case hexadecimal digit for `v`.
fn hex_digit_of(v: u8) -> (c: u8)
    requires
        v < 16,
    ensures
        c == hex_digit(v as int),
{
    if v < 10 {
        48 + v
    } else {
        87 + v
    }
}

/// Appends two lower-case hexadecimal digits for each byte of `bytes`.
pub fn push_hex(buf: &mut Vec<u8>, bytes: &[u8])
    ensures
        final(buf)@ == old(buf)@ + hex_lower(bytes@),
{
    let mut i: usize = 0;
    while i < bytes.len()
        invariant
            i <= bytes.len(),
            buf@ == old(buf)@ + hex_lower(bytes@.take(i as int)),
        decreases bytes.len() - i,
    {
        let b: u8 = bytes[i];
        buf.push(hex_digit_of(b / 16));
        buf.push(hex_digit_of(b % 16));
        proof {
            assert(bytes@.take(i + 1).drop_last() =~= bytes@.take(i as int));
            assert(buf@ =~= old(buf)@ + hex_lower(bytes@.take(i + 1)));
        }
        i += 1;
    }
    proof {
        assert(bytes@.take(bytes@.len() as int) =~= bytes@);
    }
}

/// Appends one byte of a string as it is written between the quotes.
pub fn push_escaped_byte(buf: &mut Vec<u8>, b: u8)
    ensures
        final(buf)@ == old(buf)@ + escape_byte(b),
{
    if b == QUOTE || b == BACKSLASH {
        buf.push(BACKSLASH);
        buf.push(b);
    } else if b == 0x08 {
        buf.push(BACKSLASH);
        buf.push(0x62);
    } else if b == 0x09 {
        buf.push(BACKSLASH);
        buf.push(0x74);
    } else if b == 0x0a {
        buf.push(BACKSLASH);
        buf.push(0x6e);
    } else if b == 0x0c {
        buf.push(BACKSLASH);
        buf.push(0x66);
    } else if b == 0x0d {
        buf.push(BACKSLASH);
        buf.push(0x72);
    } else if b < 0x20 {
        buf.push(BACKSLASH);
        buf.push(0x75);
        buf.push(0x30);
        buf.push(0x30);
        buf.push(hex_digit_of(b / 16));
        buf.push(hex_digit_of(b % 16));
    } else {
        buf.push(b);
    }
    proof {
        assert(final(buf)@ =~= old(buf)@ + escape_byte(b));
    }
}

/// Appends the bytes of a string, each one escaped.
pub fn push_escaped(buf: &mut Vec<u8>, s: &[u8])
    ensures
        final(buf)@ == old(buf)@ + escaped(s@),
{
    let mut i: usize = 0;
    while i < s.len()
        invariant
            i <= s.len(),
            buf@ == old(buf)@ + escaped(s@.take(i as int)),
        decreases s.len() - i,
    {
        let ghost before = buf@;
        push_escaped_byte(buf, s[i]);
        proof {
            assert(s@.take(i + 1).drop_last() =~= s@.take(i as int));
            assert(buf@ =~= old(buf)@ + escaped(s@.take(i + 1)));
        }
        i += 1;
    }
    proof {
        assert(s@.take(s@.len() as int) =~= s@);
    }
}

/// Appends a text: its UTF-8 bytes, escaped and in quotes.
pub fn push_text(buf: &mut Vec<u8>, s: &str)
    ensures
        final(buf)@ == old(buf)@ + text(s@),
{
    buf.push(QUOTE);
    push_escaped(buf, s.as_bytes());
    buf.push(QUOTE);
    proof {
        assert(final(buf)@ =~= old(buf)@ + text(s@));
    }
}

/// Appends one tag as an array of strings.
pub fn push_tag(buf: &mut Vec<u8>, tag: &Vec<String>)
    ensures
        final(buf)@ == old(buf)@ + tag_bytes(tag.deep_view()),
{
    let ghost items = tag_items(tag.deep_view());
    buf.push(OPEN);
    let mut i: usize = 0;
    while i < tag.len()
        invariant
            i <= tag.len(),
            items == tag_items(tag.deep_view()),
            buf@ == old(buf)@ + seq![OPEN] + joined(items.take(i as int)),
        decreases tag.len() - i,
    {
        if i > 0 {
            buf.push(COMMA);
        }
        push_text(buf, tag[i].as_str());
        proof {
            assert(items.take(i + 1) =~= items.take(i as int).push(items[i as int]));
            lemma_joined_push(items.take(i as int), items[i as int]);
            assert(items[i as int] == text(tag@[i as int]@));
            assert(buf@ =~= old(buf)@ + seq![OPEN] + joined(items.take(i + 1)));
        }
        i += 1;
    }
    buf.push(CLOSE);
    proof {
        assert(items.take(items.len() as int) =~= items);
        assert(final(buf)@ =~= old(buf)@ + tag_bytes(tag.deep_view()));
    }
}

/// Appends the tags at positions `from` up to `to`, with a comma between each two.
pub fn push_tags(buf: &mut Vec<u8>, tags: &Vec<Vec<String>>, from: usize, to: usize)
    requires
        from <= to <= tags.len(),
    ensures
        final(buf)@ == old(buf)@ + joined(
            tag_list_items(tags.deep_view()).subrange(from as int, to as int),
        ),
{
    let ghost items = tag_list_items(tags.deep_view());
    let mut i: usize = from;
    while i < to
        invariant
            from <= i <= to <= tags.len(),
            items == tag_list_items(tags.deep_view()),
            buf@ == old(buf)@ + joined(items.subrange(from as int, i as int)),
        decreases to - i,
    {
        if i > from {
            buf.push(COMMA);
        }
        push_tag(buf, &tags[i]);
        proof {
            assert(items.subrange(from as int, i + 1) =~= items.subrange(
                from as int,
                i as int,
            ).push(items[i as int]));
            lemma_joined_push(items.subrange(from as int, i as int), items[i as int]);
            assert(items[i as int] == tag_bytes(tags@[i as int].deep_view()));
            assert(buf@ =~= old(buf)@ + joined(items.subrange(from as int, i + 1)));
        }
        i += 1;
    }
}

/// The canonical form up to the tag list: the opening bracket and the four
/// fields before the tags, each with its comma.
pub open spec fn head(version: nat, author_public_key: Seq<u8>, created_at: nat, kind: nat) -> Seq<
    u8,
> {
    seq![OPEN] + decimal(version) + seq![COMMA] + quoted(hex_lower(author_public_key)) + seq![
        COMMA,
    ] + decimal(created_at) + seq![COMMA] + decimal(kind) + seq![COMMA]
}

/// The canonical form after the tag list: a comma, the content and the
/// closing bracket.
pub open spec fn tail(content: Seq<char>) -> Seq<u8> {
    seq![COMMA] + text(content) + seq![CLOSE]
}

/// The canonical form is the head, the tag list and the tail.
pub proof fn lemma_preimage_layout(
    version: nat,
    author_public_key: Seq<u8>,
    created_at: nat,
    kind: nat,
    tags: Seq<Seq<Seq<char>>>,
    content: Seq<char>,
)
    ensures
        preimage(version, author_public_key, created_at, kind, tags, content) == head(
            version,
            author_public_key,
            created_at,
            kind,
        ) + tag_list_bytes(tags) + tail(content),
{
    let a = decimal(version);
    let b = quoted(hex_lower(author_public_key));
    let c = decimal(created_at);
    let d = decimal(kind);
    let e = tag_list_bytes(tags);
    let f = text(content);
    let s1 = seq![a];
    let s2 = s1.push(b);
    let s3 = s2.push(c);
    let s4 = s3.push(d);
    let s5 = s4.push(e);
    let s6 = s5.push(f);
    lemma_joined_push(s1, b);
    lemma_joined_push(s2, c);
    lemma_joined_push(s3, d);
    lemma_joined_push(s4, e);
    lemma_joined_push(s5, f);
    assert(s6 =~= seq![a, b, c, d, e, f]);
    assert(joined(s1) == a);
    lemma_six_items(a, b, c, d, e, f);
}

/// Six items in brackets, regrouped into head, fifth item and tail.
proof fn lemma_six_items(a: Seq<u8>, b: Seq<u8>, c: Seq<u8>, d: Seq<u8>, e: Seq<u8>, f: Seq<u8>)
    ensures
        seq![OPEN] + (a + seq![COMMA] + b + seq![COMMA] + c + seq![COMMA] + d + seq![COMMA] + e
            + seq![COMMA] + f) + seq![CLOSE] == (seq![OPEN] + a + seq![COMMA] + b + seq![COMMA] + c
            + seq![COMMA] + d + seq![COMMA]) + e + (seq![COMMA] + f + seq![CLOSE]),
{
    assert(seq![OPEN] + (a + seq![COMMA] + b + seq![COMMA] + c + seq![COMMA] + d + seq![COMMA] + e
        + seq![COMMA] + f) + seq![CLOSE] =~= (seq![OPEN] + a + seq![COMMA] + b + seq![COMMA] + c
        + seq![COMMA] + d + seq![COMMA]) + e + (seq![COMMA] + f + seq![CLOSE]));
}

/// Appends a key in lower-case hex, in quotes.
fn push_quoted_hex(buf: &mut Vec<u8>, bytes: &[u8])
    ensures
        final(buf)@ == old(buf)@ + quoted(hex_lower(bytes@)),
{
    buf.push(QUOTE);
    push_hex(buf, bytes);
    buf.push(QUOTE);
    proof {
        lemma_hex_unescaped(bytes@);
        assert(final(buf)@ =~= old(buf)@ + quoted(hex_lower(bytes@)));
    }
}

/// Appends a number in decimal and a comma.
fn push_decimal_comma(buf: &mut Vec<u8>, n: u128)
    ensures
        final(buf)@ == old(buf)@ + decimal(n as nat) + seq![COMMA],
{
    push_decimal(buf, n);
    buf.push(COMMA);
    proof {
        assert(final(buf)@ =~= old(buf)@ + decimal(n as nat) + seq![COMMA]);
    }
}

/// Appends the canonical form up to the tag list.
pub fn push_head(
    buf: &mut Vec<u8>,
    version: u64,
    author_public_key: &[u8; 32],
    created_at: u64,
    kind: u16,
)
    ensures
        final(buf)@ == old(buf)@ + head(
            version as nat,
            author_public_key@,
            created_at as nat,
            kind as nat,
        ),
{
    buf.push(OPEN);
    push_decimal_comma(buf, version as u128);
    push_quoted_hex(buf, author_public_key.as_slice());
    buf.push(COMMA);
    push_decimal_comma(buf, created_at as u128);
    push_decimal_comma(buf, kind as u128);
    proof {
        assert(final(buf)@ =~= old(buf)@ + head(
            version as nat,
            author_public_key@,
            created_at as nat,
            kind as nat,
        ));
    }
}

/// Appends the canonical form after the tag list.
pub fn push_tail(buf: &mut Vec<u8>, content: &str)
    ensures
        final(buf)@ == old(buf)@ + tail(content@),
{
    buf.push(COMMA);
    push_text(buf, content);
    buf.push(CLOSE);
    proof {
        assert(final(buf)@ =~= old(buf)@ + tail(content@));
    }
}

/// Appends the tag list as an array of tags.
pub fn push_tag_list(buf: &mut Vec<u8>, tags: &Vec<Vec<String>>)
    ensures
        final(buf)@ == old(buf)@ + tag_list_bytes(tags.deep_view()),
{
    buf.push(OPEN);
    push_tags(buf, tags, 0, tags.len());
    buf.push(CLOSE);
    proof {
        let items = tag_list_items(tags.deep_view());
        assert(items.subrange(0, tags.len() as int) =~= items);
        assert(final(buf)@ =~= old(buf)@ + tag_list_bytes(tags.deep_view()));
    }
}

/// The canonical serialization of an event's fields: the bytes that are
/// hashed to give the event's identifier.
pub fn encode_preimage(
    version: u64,
    author_public_key: &[u8; 32],
    created_at: u64,
    kind: u16,
    tags: &Vec<Vec<String>>,
    content: &str,
) -> (out: Vec<u8>)
    ensures
        out@ == preimage(
            version as nat,
            author_public_key@,
            created_at as nat,
            kind as nat,
            tags.deep_view(),
            content@,
        ),
{
    let mut out: Vec<u8> = Vec::new();
    push_head(&mut out, version, author_public_key, created_at, kind);
    push_tag_list(&mut out, tags);
    push_tail(&mut out, content);
    proof {
        lemma_preimage_layout(
            version as nat,
            author_public_key@,
            created_at as nat,
            kind as nat,
            tags.deep_view(),
            content@,
        );
        assert(out@ =~= head(version as nat, author_public_key@, created_at as nat, kind as nat)
            + tag_list_bytes(tags.deep_view()) + tail(content@));
    }
    out
}

/// A byte that is written between quotes as it is.
pub open spec fn plain_byte(b: u8) -> bool {
    b >= 0x20 && b != QUOTE && b != BACKSLASH
}

/// A string made of plain bytes is its own escaped form.
pub proof fn lemma_plain_unescaped(s: Seq<u8>)
    requires
        forall|i: int| 0 <= i < s.len() ==> plain_byte(#[trigger] s[i]),
    ensures
        escaped(s) == s,
    decreases s.len(),
{
    if s.len() > 0 {
        lemma_plain_unescaped(s.drop_last());
        assert(escape_byte(s.last()) == seq![s.last()]);
        assert(s.drop_last() + seq![s.last()] =~= s);
    }
}

/// Decimal digits are plain bytes.
pub proof fn lemma_decimal_digits(n: nat)
    ensures
        decimal(n).len() >= 1,
        forall|i: int| 0 <= i < decimal(n).len() ==> 48 <= #[trigger] decimal(n)[i] <= 57,
    decreases n,
{
    if n >= 10 {
        lemma_decimal_digits(n / 10);
    }
}

/// Hexadecimal digits are plain bytes, so a key in hex is quoted unchanged.
pub proof fn lemma_hex_unescaped(bytes: Seq<u8>)
    ensures
        hex_lower(bytes).len() == 2 * bytes.len(),
        forall|i: int| 0 <= i < hex_lower(bytes).len() ==> plain_byte(#[trigger] hex_lower(bytes)[i]),
        escaped(hex_lower(bytes)) == hex_lower(bytes),
    decreases bytes.len(),
{
    if bytes.len() > 0 {
        lemma_hex_unescaped(bytes.drop_last());
    }
    lemma_plain_unescaped(hex_lower(bytes));
}

} // verus!
