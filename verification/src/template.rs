//! A serialized event with a hole where the nonce goes.
//!
//! Everything in the canonical form but the digits of the nonce is the same
//! for every candidate. A template holds the bytes before and after those
//! digits, so that a candidate's canonical form is made by writing the digits
//! between them. No byte of either part is ever written again.

use vstd::prelude::*;
use vstd::utf8::*;
use crate::difficulty::{check_pow_difficulty, meets_difficulty};
use crate::digest::{sha256, sha256_digest, SHA256_INPUT_LIMIT};
use crate::encoding::{
    decimal, head, joined, lemma_decimal_digits, lemma_joined_concat, lemma_joined_push,
    lemma_plain_unescaped, lemma_preimage_layout, plain_byte, push_decimal, push_head, push_tags,
    push_tail, push_text, tag_bytes, tag_items, tag_list_bytes, tag_list_items, tail, text, CLOSE,
    COMMA, OPEN, QUOTE,
};
use crate::event::{
    decimal_chars, find_nonce_tag, lemma_nonce_position, nonce_name, nonce_position, nonce_tag,
    tags_after, with_nonce_tag, UnsignedEventSkeleton, SCHEMA_VERSION,
};

verus! {

/// The most decimal digits a nonce can have.
pub const NONCE_DIGITS: u64 = 39;

/// The serialized tags with a comma after them, or nothing for no tags.
pub open spec fn tags_then_comma(tags: Seq<Seq<Seq<char>>>) -> Seq<u8> {
    if tags.len() == 0 {
        seq![]
    } else {
        joined(tag_list_items(tags)) + seq![COMMA]
    }
}

/// The serialized tags with a comma before them, or nothing for no tags.
pub open spec fn comma_then_tags(tags: Seq<Seq<Seq<char>>>) -> Seq<u8> {
    if tags.len() == 0 {
        seq![]
    } else {
        seq![COMMA] + joined(tag_list_items(tags))
    }
}

/// The canonical form up to the tag list.
pub open spec fn head_of(skeleton: UnsignedEventSkeleton) -> Seq<u8> {
    head(
        SCHEMA_VERSION as nat,
        skeleton.author_public_key@,
        skeleton.created_at as nat,
        skeleton.kind as nat,
    )
}

/// The canonical form after the tag list.
pub open spec fn tail_of(skeleton: UnsignedEventSkeleton) -> Seq<u8> {
    tail(skeleton.content@)
}

/// The nonce tag up to the first digit of the nonce.
pub open spec fn nonce_open() -> Seq<u8> {
    seq![OPEN] + text(nonce_name()) + seq![COMMA, QUOTE]
}

/// The nonce tag from the byte after the last digit of the nonce.
pub open spec fn nonce_close(difficulty: nat) -> Seq<u8> {
    seq![QUOTE, COMMA, QUOTE] + decimal(difficulty) + seq![QUOTE, CLOSE]
}

/// The canonical form up to the first digit of the nonce.
pub open spec fn prefix_of(skeleton: UnsignedEventSkeleton) -> Seq<u8> {
    let tags = skeleton.tags.deep_view();
    head_of(skeleton) + seq![OPEN] + tags_then_comma(tags.take(nonce_position(tags)))
        + nonce_open()
}

/// The canonical form from the byte after the last digit of the nonce.
pub open spec fn suffix_of(skeleton: UnsignedEventSkeleton, difficulty: nat) -> Seq<u8> {
    let tags = skeleton.tags.deep_view();
    nonce_close(difficulty) + comma_then_tags(tags_after(tags, nonce_position(tags))) + seq![
        CLOSE,
    ] + tail_of(skeleton)
}

/// A number in decimal, as characters, is serialized as its digits in quotes.
pub proof fn lemma_decimal_text(n: nat)
    ensures
        text(decimal_chars(n)) == seq![QUOTE] + decimal(n) + seq![QUOTE],
{
    let chars = decimal_chars(n);
    lemma_decimal_digits(n);
    assert(is_ascii_chars(chars)) by {
        assert forall|i: int| 0 <= i < chars.len() implies '\0' <= #[trigger] chars[i]
            <= '\u{7f}' by {
            assert(48 <= decimal(n)[i] <= 57);
        }
    }
    is_ascii_chars_encode_utf8(chars);
    assert(encode_utf8(chars) =~= decimal(n)) by {
        assert forall|i: int| 0 <= i < chars.len() implies encode_utf8(chars)[i] == decimal(n)[i] by {
            assert(chars[i] as u8 == encode_utf8(chars)[i]);
            assert(48 <= decimal(n)[i] <= 57);
        }
    }
    assert forall|i: int| 0 <= i < decimal(n).len() implies plain_byte(#[trigger] decimal(n)[i]) by {
        assert(48 <= decimal(n)[i] <= 57);
    }
    lemma_plain_unescaped(decimal(n));
}

/// The nonce tag, serialized, with the digits of the nonce set apart.
pub proof fn lemma_nonce_tag_bytes(nonce: nat, difficulty: nat)
    ensures
        tag_bytes(nonce_tag(nonce, difficulty)) == nonce_open() + decimal(nonce) + nonce_close(
            difficulty,
        ),
{
    let tag = nonce_tag(nonce, difficulty);
    let a = text(nonce_name());
    let b = text(decimal_chars(nonce));
    let c = text(decimal_chars(difficulty));
    let s1 = seq![a];
    let s2 = s1.push(b);
    let s3 = s2.push(c);
    assert(tag_items(tag) =~= s3);
    assert(joined(s1) == a);
    lemma_joined_push(s1, b);
    lemma_joined_push(s2, c);
    lemma_decimal_text(nonce);
    lemma_decimal_text(difficulty);
    lemma_quoted_pair(a, decimal(nonce), decimal(difficulty));
}

/// Two quoted strings after a first item, regrouped around the first string.
proof fn lemma_quoted_pair(a: Seq<u8>, x: Seq<u8>, y: Seq<u8>)
    ensures
        seq![OPEN] + (a + seq![COMMA] + (seq![QUOTE] + x + seq![QUOTE]) + seq![COMMA] + (seq![
            QUOTE,
        ] + y + seq![QUOTE])) + seq![CLOSE] == (seq![OPEN] + a + seq![COMMA, QUOTE]) + x + (seq![
            QUOTE,
            COMMA,
            QUOTE,
        ] + y + seq![QUOTE, CLOSE]),
{
    assert(seq![OPEN] + (a + seq![COMMA] + (seq![QUOTE] + x + seq![QUOTE]) + seq![COMMA] + (seq![
        QUOTE,
    ] + y + seq![QUOTE])) + seq![CLOSE] =~= (seq![OPEN] + a + seq![COMMA, QUOTE]) + x + (seq![
        QUOTE,
        COMMA,
        QUOTE,
    ] + y + seq![QUOTE, CLOSE]));
}

/// The parts of a canonical form, regrouped around the digits of the nonce.
proof fn lemma_regroup(
    head: Seq<u8>,
    lead: Seq<u8>,
    open: Seq<u8>,
    digits: Seq<u8>,
    close: Seq<u8>,
    trail: Seq<u8>,
    tail: Seq<u8>,
)
    ensures
        head + (seq![OPEN] + lead + (open + digits + close) + trail + seq![CLOSE]) + tail == (head
            + seq![OPEN] + lead + open) + digits + (close + trail + seq![CLOSE] + tail),
{
    assert(head + (seq![OPEN] + lead + (open + digits + close) + trail + seq![CLOSE]) + tail =~= (
    head + seq![OPEN] + lead + open) + digits + (close + trail + seq![CLOSE] + tail));
}

/// A tag list with one tag put between two parts, serialized.
pub proof fn lemma_tag_list_around(
    before: Seq<Seq<Seq<char>>>,
    tag: Seq<Seq<char>>,
    after: Seq<Seq<Seq<char>>>,
)
    ensures
        tag_list_bytes(before.push(tag) + after) == seq![OPEN] + tags_then_comma(before)
            + tag_bytes(tag) + comma_then_tags(after) + seq![CLOSE],
{
    let front = tag_list_items(before);
    let back = tag_list_items(after);
    let one = tag_bytes(tag);
    assert(tag_list_items(before.push(tag) + after) =~= front.push(one) + back);
    lemma_joined_push(front, one);
    lemma_joined_concat(front.push(one), back);
    if before.len() == 0 {
        if after.len() == 0 {
            assert(seq![OPEN] + one + seq![CLOSE] =~= seq![OPEN] + seq![] + one + seq![] + seq![
                CLOSE,
            ]);
        } else {
            assert(seq![OPEN] + (one + seq![COMMA] + joined(back)) + seq![CLOSE] =~= seq![OPEN]
                + seq![] + one + (seq![COMMA] + joined(back)) + seq![CLOSE]);
        }
    } else {
        if after.len() == 0 {
            assert(seq![OPEN] + (joined(front) + seq![COMMA] + one) + seq![CLOSE] =~= seq![OPEN]
                + (joined(front) + seq![COMMA]) + one + seq![] + seq![CLOSE]);
        } else {
            assert(seq![OPEN] + (joined(front) + seq![COMMA] + one + seq![COMMA] + joined(back))
                + seq![CLOSE] =~= seq![OPEN] + (joined(front) + seq![COMMA]) + one + (seq![COMMA]
                + joined(back)) + seq![CLOSE]);
        }
    }
}

/// The canonical form is the head, the tag list and the tail.
pub proof fn lemma_head_and_tail(skeleton: UnsignedEventSkeleton, nonce: nat, difficulty: nat)
    ensures
        skeleton.preimage_with(nonce, difficulty) == head_of(skeleton) + tag_list_bytes(
            with_nonce_tag(skeleton.tags.deep_view(), nonce, difficulty),
        ) + tail_of(skeleton),
{
    lemma_preimage_layout(
        SCHEMA_VERSION as nat,
        skeleton.author_public_key@,
        skeleton.created_at as nat,
        skeleton.kind as nat,
        with_nonce_tag(skeleton.tags.deep_view(), nonce, difficulty),
        skeleton.content@,
    );
}

/// Writing the digits of a nonce between the two parts gives the canonical
/// form of the event with that nonce: the same bytes as serializing it anew.
pub proof fn lemma_template_split(skeleton: UnsignedEventSkeleton, nonce: nat, difficulty: nat)
    ensures
        skeleton.preimage_with(nonce, difficulty) == prefix_of(skeleton) + decimal(nonce)
            + suffix_of(skeleton, difficulty),
{
    let tags = skeleton.tags.deep_view();
    let position = nonce_position(tags);
    let before = tags.take(position);
    let after = tags_after(tags, position);
    lemma_nonce_position(tags);
    lemma_tag_list_around(before, nonce_tag(nonce, difficulty), after);
    lemma_nonce_tag_bytes(nonce, difficulty);
    lemma_head_and_tail(skeleton, nonce, difficulty);
    lemma_regroup(
        head_of(skeleton),
        tags_then_comma(before),
        nonce_open(),
        decimal(nonce),
        nonce_close(difficulty),
        comma_then_tags(after),
        tail_of(skeleton),
    );
}

/// Ten to the power `k`.
pub open spec fn pow10(k: nat) -> nat
    decreases k,
{
    if k == 0 {
        1
    } else {
        10 * pow10((k - 1) as nat)
    }
}

/// A number below ten to the `k` has at most `k` digits.
pub proof fn lemma_decimal_len(n: nat, k: nat)
    requires
        k >= 1,
        n < pow10(k),
    ensures
        decimal(n).len() <= k,
    decreases k,
{
    if n >= 10 {
        assert(pow10(1) == 10) by {
            reveal_with_fuel(pow10, 2);
        }
        assert(k >= 2);
        lemma_decimal_len(n / 10, (k - 1) as nat);
    }
}

/// A nonce has at most `NONCE_DIGITS` digits.
pub proof fn lemma_nonce_len(nonce: u128)
    ensures
        1 <= decimal(nonce as nat).len() <= NONCE_DIGITS,
{
    assert(pow10(13) == 10_000_000_000_000) by {
        reveal_with_fuel(pow10, 14);
    }
    assert(pow10(26) == 10_000_000_000_000 * pow10(13)) by {
        reveal_with_fuel(pow10, 14);
    }
    assert(pow10(39) == 10_000_000_000_000 * pow10(26)) by {
        reveal_with_fuel(pow10, 14);
    }
    assert(pow10(39) == 1_000_000_000_000_000_000_000_000_000_000_000_000_000);
    lemma_decimal_len(nonce as nat, 39);
    lemma_decimal_digits(nonce as nat);
}

/// Whether every candidate made from `skeleton` is short enough to be hashed.
pub open spec fn hashable(skeleton: UnsignedEventSkeleton, difficulty: nat) -> bool {
    prefix_of(skeleton).len() + NONCE_DIGITS + suffix_of(skeleton, difficulty).len()
        < SHA256_INPUT_LIMIT
}

/// Whether a skeleton is hashable, by the length of its canonical form with
/// the shortest nonce: the longest nonce has `NONCE_DIGITS - 1` digits more.
pub proof fn lemma_hashable_by_preimage(skeleton: UnsignedEventSkeleton, difficulty: nat)
    ensures
        hashable(skeleton, difficulty) <==> skeleton.preimage_with(0, difficulty).len()
            + NONCE_DIGITS - 1 < SHA256_INPUT_LIMIT,
{
    lemma_template_split(skeleton, 0, difficulty);
    assert(decimal(0).len() == 1);
}

/// Appends all the bytes of `src`.
fn push_all(buf: &mut Vec<u8>, src: &[u8])
    ensures
        final(buf)@ == old(buf)@ + src@,
{
    let mut i: usize = 0;
    while i < src.len()
        invariant
            i <= src.len(),
            buf@ == old(buf)@ + src@.take(i as int),
        decreases src.len() - i,
    {
        buf.push(src[i]);
        proof {
            assert(buf@ =~= old(buf)@ + src@.take(i + 1));
        }
        i += 1;
    }
    proof {
        assert(src@.take(src@.len() as int) =~= src@);
    }
}

/// Appends the tags before `position`, with a comma after them if there are any.
fn push_tags_then_comma(buf: &mut Vec<u8>, tags: &Vec<Vec<String>>, position: usize)
    requires
        position <= tags.len(),
    ensures
        final(buf)@ == old(buf)@ + tags_then_comma(tags.deep_view().take(position as int)),
{
    push_tags(buf, tags, 0, position);
    if position > 0 {
        buf.push(COMMA);
    }
    proof {
        assert(tag_list_items(tags.deep_view()).subrange(0, position as int) =~= tag_list_items(
            tags.deep_view().take(position as int),
        ));
        assert(final(buf)@ =~= old(buf)@ + tags_then_comma(
            tags.deep_view().take(position as int),
        ));
    }
}

/// Appends the tags after `position`, with a comma before them if there are any.
fn push_comma_then_tags(buf: &mut Vec<u8>, tags: &Vec<Vec<String>>, position: usize)
    requires
        position <= tags.len(),
    ensures
        final(buf)@ == old(buf)@ + comma_then_tags(tags_after(tags.deep_view(), position as int)),
{
    if position < tags.len() && position + 1 < tags.len() {
        buf.push(COMMA);
        push_tags(buf, tags, position + 1, tags.len());
    }
    proof {
        let after = tags_after(tags.deep_view(), position as int);
        if position < tags.len() {
            assert(tag_list_items(tags.deep_view()).subrange(position + 1, tags.len() as int)
                =~= tag_list_items(after));
        }
        assert(final(buf)@ =~= old(buf)@ + comma_then_tags(after));
    }
}

/// Appends the nonce tag up to the first digit of the nonce.
fn push_nonce_open(buf: &mut Vec<u8>)
    ensures
        final(buf)@ == old(buf)@ + nonce_open(),
{
    buf.push(OPEN);
    push_text(buf, "nonce");
    buf.push(COMMA);
    buf.push(QUOTE);
    proof {
        reveal_strlit("nonce");
        assert("nonce"@ =~= nonce_name());
        assert(final(buf)@ =~= old(buf)@ + nonce_open());
    }
}

/// Appends the nonce tag from the byte after the last digit of the nonce.
fn push_nonce_close(buf: &mut Vec<u8>, difficulty: u8)
    ensures
        final(buf)@ == old(buf)@ + nonce_close(difficulty as nat),
{
    buf.push(QUOTE);
    buf.push(COMMA);
    buf.push(QUOTE);
    push_decimal(buf, difficulty as u128);
    buf.push(QUOTE);
    buf.push(CLOSE);
    proof {
        assert(final(buf)@ =~= old(buf)@ + nonce_close(difficulty as nat));
    }
}

/// The canonical form up to the first digit of the nonce.
fn build_prefix(skeleton: &UnsignedEventSkeleton, position: usize) -> (prefix: Vec<u8>)
    requires
        position == nonce_position(skeleton.tags.deep_view()),
        position <= skeleton.tags.len(),
    ensures
        prefix@ == prefix_of(*skeleton),
{
    let mut prefix: Vec<u8> = Vec::new();
    push_head(
        &mut prefix,
        SCHEMA_VERSION,
        &skeleton.author_public_key,
        skeleton.created_at,
        skeleton.kind,
    );
    prefix.push(OPEN);
    push_tags_then_comma(&mut prefix, &skeleton.tags, position);
    push_nonce_open(&mut prefix);
    proof {
        assert(prefix@ =~= prefix_of(*skeleton));
    }
    prefix
}

/// The canonical form from the byte after the last digit of the nonce.
fn build_suffix(skeleton: &UnsignedEventSkeleton, difficulty: u8, position: usize) -> (suffix:
    Vec<u8>)
    requires
        position == nonce_position(skeleton.tags.deep_view()),
        position <= skeleton.tags.len(),
    ensures
        suffix@ == suffix_of(*skeleton, difficulty as nat),
{
    let mut suffix: Vec<u8> = Vec::new();
    push_nonce_close(&mut suffix, difficulty);
    push_comma_then_tags(&mut suffix, &skeleton.tags, position);
    suffix.push(CLOSE);
    push_tail(&mut suffix, skeleton.content.as_str());
    proof {
        assert(suffix@ =~= suffix_of(*skeleton, difficulty as nat));
    }
    suffix
}

/// The two fixed parts of the canonical form of every candidate of one search.
pub struct PreimageTemplate {
    prefix: Vec<u8>,
    suffix: Vec<u8>,
}

impl PreimageTemplate {
    /// The bytes before the digits of the nonce.
    pub closed spec fn prefix(&self) -> Seq<u8> {
        self.prefix@
    }

    /// The bytes after the digits of the nonce.
    pub closed spec fn suffix(&self) -> Seq<u8> {
        self.suffix@
    }

    /// The canonical form of the candidate with the given nonce.
    pub open spec fn candidate(&self, nonce: nat) -> Seq<u8> {
        self.prefix() + decimal(nonce) + self.suffix()
    }

    /// Every candidate is short enough to be hashed.
    pub open spec fn wf(&self) -> bool {
        self.prefix().len() + NONCE_DIGITS + self.suffix().len() < SHA256_INPUT_LIMIT
    }

    /// The template is the one of `skeleton` at `difficulty`.
    pub open spec fn of(&self, skeleton: UnsignedEventSkeleton, difficulty: nat) -> bool {
        &&& self.prefix() == prefix_of(skeleton)
        &&& self.suffix() == suffix_of(skeleton, difficulty)
    }

    /// The digest of the candidate with the given nonce meets `difficulty`.
    pub open spec fn hit(&self, nonce: nat, difficulty: nat) -> bool {
        meets_difficulty(sha256(self.candidate(nonce)), difficulty)
    }

    /// The template of `skeleton` at `difficulty`, unless its candidates
    /// would be too long to be hashed.
    pub fn new(skeleton: &UnsignedEventSkeleton, difficulty: u8) -> (made: Option<
        PreimageTemplate,
    >)
        ensures
            made is Some <==> hashable(*skeleton, difficulty as nat),
            made matches Some(t) ==> t.wf() && t.of(*skeleton, difficulty as nat),
    {
        let position = find_nonce_tag(&skeleton.tags);
        proof {
            lemma_nonce_position(skeleton.tags.deep_view());
        }
        let prefix = build_prefix(skeleton, position);
        let suffix = build_suffix(skeleton, difficulty, position);
        if prefix.len() as u128 + NONCE_DIGITS as u128 + (suffix.len() as u128)
            < SHA256_INPUT_LIMIT as u128 {
            Some(PreimageTemplate { prefix, suffix })
        } else {
            None
        }
    }

    /// The canonical form of the candidate with the given nonce: the digits
    /// of the nonce written between the two fixed parts.
    pub fn fill(&self, nonce: u128) -> (out: Vec<u8>)
        ensures
            out@ == self.candidate(nonce as nat),
    {
        let mut out: Vec<u8> = Vec::new();
        push_all(&mut out, self.prefix.as_slice());
        push_decimal(&mut out, nonce);
        push_all(&mut out, self.suffix.as_slice());
        proof {
            assert(out@ =~= self.candidate(nonce as nat));
        }
        out
    }

    /// The digest of the candidate with the given nonce.
    pub fn digest(&self, nonce: u128) -> (digest: [u8; 32])
        requires
            self.wf(),
        ensures
            digest@ == sha256(self.candidate(nonce as nat)),
    {
        let candidate = self.fill(nonce);
        proof {
            lemma_nonce_len(nonce);
        }
        sha256_digest(candidate.as_slice())
    }

    /// The nonce, if the digest of its candidate meets `difficulty`.
    pub fn attempt(&self, nonce: u128, difficulty: u8) -> (found: Option<u128>)
        requires
            self.wf(),
        ensures
            found == if self.hit(nonce as nat, difficulty as nat) {
                Some(nonce)
            } else {
                None
            },
    {
        let digest = self.digest(nonce);
        if check_pow_difficulty(&digest, difficulty) {
            Some(nonce)
        } else {
            None
        }
    }
}

/// A template of a skeleton gives, for every nonce, the canonical form of the
/// skeleton's event with that nonce.
pub proof fn lemma_template_candidates(
    template: PreimageTemplate,
    skeleton: UnsignedEventSkeleton,
    difficulty: nat,
)
    requires
        template.of(skeleton, difficulty),
    ensures
        forall|nonce: nat| #[trigger]
            template.candidate(nonce) == skeleton.preimage_with(nonce, difficulty),
{
    assert forall|nonce: nat| #[trigger]
        template.candidate(nonce) == skeleton.preimage_with(nonce, difficulty) by {
        lemma_template_split(skeleton, nonce, difficulty);
    }
}

} // verus!
