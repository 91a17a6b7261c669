//! The event records, and where the nonce tag goes in a tag list.

use vstd::prelude::*;
use vstd::string::*;
use crate::digest::{sha256, sha256_digest, SHA256_INPUT_LIMIT};
use crate::encoding::{decimal, encode_preimage, preimage};

verus! {

/// The version number that every canonical form starts with.
pub const SCHEMA_VERSION: u64 = 0;

/// The fixed fields of an event that has neither a nonce nor an identifier yet.
#[derive(Clone, Debug, PartialEq, Eq)]
pub struct UnsignedEventSkeleton {
    pub author_public_key: [u8; 32],
    pub created_at: u64,
    pub kind: u16,
    pub tags: Vec<Vec<String>>,
    pub content: String,
}

/// An event with its nonce tag in place and the identifier that goes with it.
#[derive(Clone, Debug, PartialEq, Eq)]
pub struct FinalizedEvent {
    pub author_public_key: [u8; 32],
    pub created_at: u64,
    pub kind: u16,
    pub tags: Vec<Vec<String>>,
    pub content: String,
    pub identifier: [u8; 32],
}

/// The decimal digits of `n` as characters.
pub open spec fn decimal_chars(n: nat) -> Seq<char> {
    Seq::new(decimal(n).len(), |i: int| decimal(n)[i] as char)
}

/// The first field of a nonce tag.
pub open spec fn nonce_name() -> Seq<char> {
    seq!['n', 'o', 'n', 'c', 'e']
}

/// The tag `["nonce", nonce in decimal, difficulty in decimal]`.
pub open spec fn nonce_tag(nonce: nat, difficulty: nat) -> Seq<Seq<char>> {
    seq![nonce_name(), decimal_chars(nonce), decimal_chars(difficulty)]
}

/// A tag counts as a nonce tag when its first field is the word `nonce`.
pub open spec fn is_nonce_tag(tag: Seq<Seq<char>>) -> bool {
    tag.len() > 0 && tag[0] == nonce_name()
}

/// The position of the first nonce tag, or the length of the list when it has none.
pub open spec fn nonce_position(tags: Seq<Seq<Seq<char>>>) -> int
    decreases tags.len(),
{
    if tags.len() == 0 {
        0
    } else if is_nonce_tag(tags[0]) {
        0
    } else {
        1 + nonce_position(tags.drop_first())
    }
}

/// The tags that come after the nonce position.
pub open spec fn tags_after(tags: Seq<Seq<Seq<char>>>, position: int) -> Seq<Seq<Seq<char>>> {
    if position < tags.len() {
        tags.skip(position + 1)
    } else {
        Seq::empty()
    }
}

/// The tag list with the nonce tag in it: in place of the first nonce tag
/// where there is one, at the end where there is none.
pub open spec fn with_nonce_tag(tags: Seq<Seq<Seq<char>>>, nonce: nat, difficulty: nat) -> Seq<
    Seq<Seq<char>>,
> {
    let position = nonce_position(tags);
    tags.take(position).push(nonce_tag(nonce, difficulty)) + tags_after(tags, position)
}

/// What `nonce_position` picks: no nonce tag stands before it, and one stands
/// at it unless it is the end of the list.
pub proof fn lemma_nonce_position(tags: Seq<Seq<Seq<char>>>)
    ensures
        0 <= nonce_position(tags) <= tags.len(),
        forall|j: int| 0 <= j < nonce_position(tags) ==> !is_nonce_tag(#[trigger] tags[j]),
        nonce_position(tags) < tags.len() ==> is_nonce_tag(tags[nonce_position(tags)]),
    decreases tags.len(),
{
    if tags.len() > 0 && !is_nonce_tag(tags[0]) {
        let rest = tags.drop_first();
        lemma_nonce_position(rest);
        assert forall|j: int| 0 <= j < nonce_position(tags) implies !is_nonce_tag(
            #[trigger] tags[j],
        ) by {
            if j > 0 {
                assert(tags[j] == rest[j - 1]);
            }
        }
    }
}

/// The position is the only one with the two properties of `lemma_nonce_position`.
pub proof fn lemma_nonce_position_unique(tags: Seq<Seq<Seq<char>>>, p: int)
    requires
        0 <= p <= tags.len(),
        forall|j: int| 0 <= j < p ==> !is_nonce_tag(#[trigger] tags[j]),
        p < tags.len() ==> is_nonce_tag(tags[p]),
    ensures
        nonce_position(tags) == p,
{
    lemma_nonce_position(tags);
    let q = nonce_position(tags);
    if q < p {
        assert(!is_nonce_tag(tags[q]));
    } else if p < q {
        assert(!is_nonce_tag(tags[p]));
    }
}

impl UnsignedEventSkeleton {
    /// The canonical form of the event once it carries the given nonce tag.
    pub open spec fn preimage_with(&self, nonce: nat, difficulty: nat) -> Seq<u8> {
        preimage(
            SCHEMA_VERSION as nat,
            self.author_public_key@,
            self.created_at as nat,
            self.kind as nat,
            with_nonce_tag(self.tags.deep_view(), nonce, difficulty),
            self.content@,
        )
    }

    /// The identifier of the event once it carries the given nonce tag.
    pub open spec fn identifier_with(&self, nonce: nat, difficulty: nat) -> Seq<u8> {
        sha256(self.preimage_with(nonce, difficulty))
    }
}

impl FinalizedEvent {
    /// The canonical form of the event.
    pub open spec fn preimage(&self) -> Seq<u8> {
        preimage(
            SCHEMA_VERSION as nat,
            self.author_public_key@,
            self.created_at as nat,
            self.kind as nat,
            self.tags.deep_view(),
            self.content@,
        )
    }

    /// The identifier is the digest of the event's own canonical form.
    pub open spec fn wf(&self) -> bool {
        &&& self.preimage().len() < SHA256_INPUT_LIMIT
        &&& self.identifier@ == sha256(self.preimage())
    }

    /// The event is `skeleton` with the nonce tag for `nonce` and `difficulty`
    /// put in, and nothing else changed.
    pub open spec fn extends(
        &self,
        skeleton: UnsignedEventSkeleton,
        nonce: nat,
        difficulty: nat,
    ) -> bool {
        &&& self.author_public_key@ == skeleton.author_public_key@
        &&& self.created_at == skeleton.created_at
        &&& self.kind == skeleton.kind
        &&& self.content@ == skeleton.content@
        &&& self.tags.deep_view() == with_nonce_tag(skeleton.tags.deep_view(), nonce, difficulty)
    }

    /// Whether the identifier is the digest of the event's own canonical form.
    pub fn has_valid_identifier(&self) -> (ok: bool)
        ensures
            ok == self.wf(),
    {
        let bytes = self.canonical_preimage();
        if bytes.len() as u64 >= SHA256_INPUT_LIMIT {
            return false;
        }
        let digest = sha256_digest(bytes.as_slice());
        same_digest(&digest, &self.identifier)
    }

    /// The canonical form of the event, serialized anew from its fields.
    pub fn canonical_preimage(&self) -> (out: Vec<u8>)
        ensures
            out@ == self.preimage(),
    {
        encode_preimage(
            SCHEMA_VERSION,
            &self.author_public_key,
            self.created_at,
            self.kind,
            &self.tags,
            self.content.as_str(),
        )
    }
}

/// Whether two digests are the same, byte for byte.
pub fn same_digest(a: &[u8; 32], b: &[u8; 32]) -> (same: bool)
    ensures
        same == (a@ == b@),
{
    let mut i: usize = 0;
    while i < 32
        invariant
            i <= 32,
            forall|j: int| 0 <= j < i ==> a@[j] == b@[j],
        decreases 32 - i,
    {
        if a[i] != b[i] {
            return false;
        }
        i += 1;
    }
    proof {
        assert(a@ =~= b@);
    }
    true
}

/// The one-character text for a decimal digit.
fn digit_text(d: u8) -> (s: &'static str)
    requires
        d < 10,
    ensures
        s@ == seq![(48 + d) as u8 as char],
{
    proof {
        reveal_strlit("0");
        reveal_strlit("1");
        reveal_strlit("2");
        reveal_strlit("3");
        reveal_strlit("4");
        reveal_strlit("5");
        reveal_strlit("6");
        reveal_strlit("7");
        reveal_strlit("8");
        reveal_strlit("9");
    }
    let s = if d == 0 {
        "0"
    } else if d == 1 {
        "1"
    } else if d == 2 {
        "2"
    } else if d == 3 {
        "3"
    } else if d == 4 {
        "4"
    } else if d == 5 {
        "5"
    } else if d == 6 {
        "6"
    } else if d == 7 {
        "7"
    } else if d == 8 {
        "8"
    } else {
        "9"
    };
    assert(s@ =~= seq![(48 + d) as u8 as char]);
    s
}

/// Appends `n` in decimal to a text.
fn append_decimal(s: &mut String, n: u128)
    ensures
        final(s)@ == old(s)@ + decimal_chars(n as nat),
    decreases n,
{
    if n >= 10 {
        append_decimal(s, n / 10);
    }
    s.append(digit_text((n % 10) as u8));
    proof {
        assert(final(s)@ =~= old(s)@ + decimal_chars(n as nat));
    }
}

/// `n` in decimal, as a text.
pub fn decimal_string(n: u128) -> (s: String)
    ensures
        s@ == decimal_chars(n as nat),
{
    let mut s = String::new();
    append_decimal(&mut s, n);
    assert(s@ =~= decimal_chars(n as nat));
    s
}

/// Whether the tag's first field is the word `nonce`.
pub fn tag_is_nonce(tag: &Vec<String>) -> (yes: bool)
    ensures
        yes == is_nonce_tag(tag.deep_view()),
{
    if tag.len() == 0 {
        return false;
    }
    let name = String::from_str("nonce");
    proof {
        reveal_strlit("nonce");
        assert(name@ =~= nonce_name());
        assert(tag.deep_view()[0] == tag@[0]@);
    }
    tag[0] == name
}

/// The position of the first nonce tag, or the length of the list when it has none.
pub fn find_nonce_tag(tags: &Vec<Vec<String>>) -> (position: usize)
    ensures
        position == nonce_position(tags.deep_view()),
{
    let mut i: usize = 0;
    while i < tags.len()
        invariant
            i <= tags.len(),
            forall|j: int| 0 <= j < i ==> !is_nonce_tag(#[trigger] tags.deep_view()[j]),
        decreases tags.len() - i,
    {
        if tag_is_nonce(&tags[i]) {
            proof {
                assert(tags.deep_view()[i as int] == tags@[i as int].deep_view());
                lemma_nonce_position_unique(tags.deep_view(), i as int);
            }
            return i;
        }
        proof {
            assert(tags.deep_view()[i as int] == tags@[i as int].deep_view());
        }
        i += 1;
    }
    proof {
        lemma_nonce_position_unique(tags.deep_view(), i as int);
    }
    i
}

/// A copy of one tag.
fn copy_tag(tag: &Vec<String>) -> (out: Vec<String>)
    ensures
        out.deep_view() == tag.deep_view(),
{
    let mut out: Vec<String> = Vec::new();
    let mut i: usize = 0;
    while i < tag.len()
        invariant
            i <= tag.len(),
            out@.len() == i,
            forall|j: int| 0 <= j < i ==> out@[j]@ == tag@[j]@,
        decreases tag.len() - i,
    {
        out.push(tag[i].clone());
        i += 1;
    }
    proof {
        assert(out.deep_view() =~= tag.deep_view());
    }
    out
}

/// The nonce tag for `nonce` and `difficulty`.
pub fn make_nonce_tag(nonce: u128, difficulty: u8) -> (tag: Vec<String>)
    ensures
        tag.deep_view() == nonce_tag(nonce as nat, difficulty as nat),
{
    let mut tag: Vec<String> = Vec::new();
    let name = String::from_str("nonce");
    proof {
        reveal_strlit("nonce");
        assert(name@ =~= nonce_name());
    }
    tag.push(name);
    tag.push(decimal_string(nonce));
    tag.push(decimal_string(difficulty as u128));
    proof {
        assert(tag.deep_view() =~= nonce_tag(nonce as nat, difficulty as nat));
    }
    tag
}

/// A copy of `tags` with the nonce tag put in: in place of the first nonce
/// tag where there is one, at the end where there is none.
pub fn tags_with_nonce(tags: &Vec<Vec<String>>, nonce: u128, difficulty: u8) -> (out: Vec<
    Vec<String>,
>)
    ensures
        out.deep_view() == with_nonce_tag(tags.deep_view(), nonce as nat, difficulty as nat),
{
    let position = find_nonce_tag(tags);
    let ghost model = tags.deep_view();
    let ghost goal = with_nonce_tag(model, nonce as nat, difficulty as nat);
    proof {
        lemma_nonce_position(model);
    }
    let mut out: Vec<Vec<String>> = Vec::new();
    let mut i: usize = 0;
    while i < position
        invariant
            i <= position <= tags.len(),
            model == tags.deep_view(),
            out@.len() == i,
            forall|j: int| 0 <= j < i ==> out@[j].deep_view() == model[j],
        decreases position - i,
    {
        out.push(copy_tag(&tags[i]));
        proof {
            assert(model[i as int] == tags@[i as int].deep_view());
        }
        i += 1;
    }
    out.push(make_nonce_tag(nonce, difficulty));
    if position < tags.len() {
        i = position + 1;
        while i < tags.len()
            invariant
                position < i <= tags.len(),
                model == tags.deep_view(),
                out@.len() == i,
                forall|j: int| 0 <= j < position ==> out@[j].deep_view() == model[j],
                out@[position as int].deep_view() == nonce_tag(nonce as nat, difficulty as nat),
                forall|j: int| position < j < i ==> out@[j].deep_view() == model[j],
            decreases tags.len() - i,
        {
            out.push(copy_tag(&tags[i]));
            proof {
                assert(model[i as int] == tags@[i as int].deep_view());
            }
            i += 1;
        }
    }
    proof {
        assert(out.deep_view() =~= goal);
    }
    out
}

} // verus!
