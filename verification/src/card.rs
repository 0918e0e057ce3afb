//! The card record: one note with identity, text fields, a set of
//! tags, and the two timestamps that every mutation maintains.

use vstd::prelude::*;

verus! {

/// The errors this library reports. File-system failures are the
/// caller's to handle: nothing in here touches a file.
#[derive(Clone, Copy, PartialEq, Eq, Structural, Debug)]
pub enum RepoError {
    /// The backing bytes are not a valid encoding of a card mapping.
    Decode,
    /// A caller-supplied identifier string is not a valid identifier.
    IdentifierParse,
}

impl RepoError {
    pub fn message(&self) -> &'static str {
        match self {
            RepoError::Decode => "backing bytes do not decode to a card mapping",
            RepoError::IdentifierParse => "malformed card identifier",
        }
    }
}

/// Identifier of a card: the 128 bits of a UUID.
#[derive(Clone, Copy, PartialEq, Eq, Structural, Debug)]
pub struct CardId {
    pub bits: u128,
}

/// What `uuid::Uuid::parse_str` returns on a given string, as a
/// 128-bit value: `None` where the string is not a UUID in any of the
/// textual forms that crate accepts.
pub uninterp spec fn uuid_of_str(s: Seq<char>) -> Option<u128>;

/// Relies on uuid's `Uuid::parse_str` (and `Uuid::as_u128`): parsing a
/// UUID from its textual forms. The result depends on the characters
/// alone.
#[verifier::external_body]
fn parse_uuid_bits(s: &str) -> (r: Option<u128>)
    ensures
        r == uuid_of_str(s@),
{
    match uuid::Uuid::parse_str(s) {
        Ok(u) => Some(u.as_u128()),
        Err(_) => None,
    }
}

/// Relies on uuid's `Uuid::new_v4` (and `Uuid::as_u128`): a freshly
/// generated random version-4 UUID. The value is random; only the
/// fixed version nibble is assumed of it.
#[verifier::external_body]
fn fresh_id_bits() -> (r: u128)
    ensures
        ((r >> 76) & 0xf) == 4,
{
    uuid::Uuid::new_v4().as_u128()
}

/// Relies on chrono's `Utc::now` and `DateTime::timestamp_millis`: the
/// current wall-clock time in milliseconds since the Unix epoch.
/// Nothing is assumed of the value: the clock may move arbitrarily
/// between calls.
#[verifier::external_body]
fn now_millis() -> i64 {
    chrono::Utc::now().timestamp_millis()
}

impl CardId {
    /// Parse the canonical string form of an identifier, as it arrives
    /// from the command surface.
    pub fn parse(s: &str) -> (r: Result<CardId, RepoError>)
        ensures
            match r {
                Ok(id) => uuid_of_str(s@) == Some(id.bits),
                Err(e) => uuid_of_str(s@) is None && e == RepoError::IdentifierParse,
            },
    {
        match parse_uuid_bits(s) {
            Some(bits) => Ok(CardId { bits }),
            None => Err(RepoError::IdentifierParse),
        }
    }
}

/// The mathematical value of a card: every field as a plain sequence
/// or integer.
pub ghost struct CardView {
    pub id: u128,
    pub title: Seq<u8>,
    pub tags: Seq<Seq<u8>>,
    pub content: Seq<u8>,
    pub created_at: i64,
    pub updated_at: i64,
}

/// One note card. Text is held as UTF-8 bytes; the caller converts
/// to and from `String` at the boundary where the text is displayed.
#[derive(Debug)]
pub struct Card {
    pub id: CardId,
    pub title: Vec<u8>,
    pub tags: Vec<Vec<u8>>,
    pub content: Vec<u8>,
    pub created_at: i64,
    pub updated_at: i64,
}

impl View for Card {
    type V = CardView;

    open spec fn view(&self) -> CardView {
        CardView {
            id: self.id.bits,
            title: self.title@,
            tags: self.tags.deep_view(),
            content: self.content@,
            created_at: self.created_at,
            updated_at: self.updated_at,
        }
    }
}

impl DeepView for Card {
    type V = CardView;

    open spec fn deep_view(&self) -> CardView {
        self.view()
    }
}

/// The tags of a card form a set: no two entries are equal.
pub open spec fn tags_distinct(tags: Seq<Seq<u8>>) -> bool {
    forall|i: int, j: int| 0 <= i < j < tags.len() ==> tags[i] != tags[j]
}

/// First-occurrence deduplication: the order of first appearances is
/// kept, later repeats are dropped.
pub open spec fn dedup_tags(s: Seq<Seq<u8>>) -> Seq<Seq<u8>>
    decreases s.len(),
{
    if s.len() == 0 {
        s
    } else {
        let d = dedup_tags(s.drop_last());
        if d.contains(s.last()) {
            d
        } else {
            d.push(s.last())
        }
    }
}

/// Copy a byte vector. Written out so that the copy is known to hold
/// exactly the same bytes.
fn copy_bytes(v: &Vec<u8>) -> (r: Vec<u8>)
    ensures
        r@ == v@,
{
    let mut r: Vec<u8> = Vec::new();
    let mut i: usize = 0;
    while i < v.len()
        invariant
            i <= v.len(),
            r@ == v@.take(i as int),
        decreases v.len() - i,
    {
        r.push(v[i]);
        i += 1;
        assert(r@ =~= v@.take(i as int));
    }
    assert(v@.take(v.len() as int) =~= v@);
    r
}

/// Copy a tag list.
fn copy_tags(v: &Vec<Vec<u8>>) -> (r: Vec<Vec<u8>>)
    ensures
        r.deep_view() == v.deep_view(),
{
    let mut r: Vec<Vec<u8>> = Vec::new();
    let mut i: usize = 0;
    while i < v.len()
        invariant
            i <= v.len(),
            r.deep_view() == v.deep_view().take(i as int),
        decreases v.len() - i,
    {
        let ghost pre = r.deep_view();
        let c = copy_bytes(&v[i]);
        proof {
            assert(c.deep_view() =~= v.deep_view()[i as int]);
        }
        r.push(c);
        proof {
            assert(r.deep_view() =~~= pre.push(c.deep_view()));
            assert(pre.push(c.deep_view()) =~~= v.deep_view().take(i as int + 1));
        }
        i += 1;
    }
    assert(v.deep_view().take(v.len() as int) =~= v.deep_view());
    r
}

/// Whether one of the tags held so far equals `x`.
fn contains_tag(ts: &Vec<Vec<u8>>, x: &Vec<u8>) -> (r: bool)
    ensures
        r == ts.deep_view().contains(x@),
{
    let mut i: usize = 0;
    while i < ts.len()
        invariant
            i <= ts.len(),
            forall|j: int| 0 <= j < i ==> ts.deep_view()[j] != x@,
        decreases ts.len() - i,
    {
        if ts[i] == *x {
            assert(ts.deep_view()[i as int] =~= x@);
            assert(ts.deep_view().contains(x@));
            return true;
        }
        assert(ts.deep_view()[i as int] != x@) by {
            if ts.deep_view()[i as int] =~= x@ {
                assert(ts[i as int]@ =~= x@);
            }
        }
        i += 1;
    }
    assert(!ts.deep_view().contains(x@));
    false
}

/// Replace a tag list by its first-occurrence deduplication.
fn dedup_exec(tags: &Vec<Vec<u8>>) -> (r: Vec<Vec<u8>>)
    ensures
        r.deep_view() == dedup_tags(tags.deep_view()),
        tags_distinct(r.deep_view()),
{
    let mut r: Vec<Vec<u8>> = Vec::new();
    let mut i: usize = 0;
    while i < tags.len()
        invariant
            i <= tags.len(),
            r.deep_view() == dedup_tags(tags.deep_view().take(i as int)),
            tags_distinct(r.deep_view()),
        decreases tags.len() - i,
    {
        let ghost pre = r.deep_view();
        let ghost dv = tags.deep_view();
        proof {
            assert(dv[i as int] =~= tags[i as int]@);
        }
        let present = contains_tag(&r, &tags[i]);
        if !present {
            assert forall|j: int| 0 <= j < pre.len() implies pre[j] != dv[i as int] by {
                if pre[j] == dv[i as int] {
                    assert(pre.contains(dv[i as int]));
                }
            }
            let c = copy_bytes(&tags[i]);
            assert(c.deep_view() =~= tags[i as int]@);
            r.push(c);
            assert(r.deep_view() =~~= pre.push(dv[i as int]));
        }
        proof {
            let t1 = dv.take(i + 1);
            assert(t1.drop_last() =~= dv.take(i as int));
            assert(t1.last() == dv[i as int]);
        }
        i += 1;
    }
    assert(tags.deep_view().take(tags.len() as int) =~= tags.deep_view());
    r
}

impl Card {
    /// A card is well formed when its tags form a set and its update
    /// timestamp never precedes its creation timestamp.
    pub open spec fn wf(&self) -> bool {
        &&& self@.updated_at >= self@.created_at
        &&& tags_distinct(self@.tags)
    }

    /// Create a card: fresh identifier, both timestamps set to the
    /// same moment, tags deduplicated into a set.
    pub fn new(title: Vec<u8>, tags: Vec<Vec<u8>>, content: Vec<u8>) -> (r: Card)
        ensures
            r@.title == title@,
            r@.content == content@,
            r@.tags == dedup_tags(tags.deep_view()),
            r@.created_at == r@.updated_at,
            r.wf(),
    {
        let now = now_millis();
        let id = CardId { bits: fresh_id_bits() };
        Card {
            id,
            title,
            tags: dedup_exec(&tags),
            content,
            created_at: now,
            updated_at: now,
        }
    }

    /// Move the update timestamp forward to the current clock, never
    /// letting it regress.
    fn touch(&mut self)
        ensures
            final(self).id == old(self).id,
            final(self).title == old(self).title,
            final(self).tags == old(self).tags,
            final(self).content == old(self).content,
            final(self).created_at == old(self).created_at,
            final(self).updated_at >= old(self).updated_at,
    {
        let t = now_millis();
        if t > self.updated_at {
            self.updated_at = t;
        }
    }

    /// Replace the title wholesale and advance the update timestamp.
    pub fn update_title(&mut self, title: Vec<u8>)
        ensures
            final(self)@.title == title@,
            final(self)@.id == old(self)@.id,
            final(self)@.tags == old(self)@.tags,
            final(self)@.content == old(self)@.content,
            final(self)@.created_at == old(self)@.created_at,
            final(self)@.updated_at >= old(self)@.updated_at,
            old(self).wf() ==> final(self).wf(),
    {
        self.title = title;
        self.touch();
    }

    /// Replace the tag set wholesale (no merging) and advance the
    /// update timestamp.
    pub fn update_tags(&mut self, tags: Vec<Vec<u8>>)
        ensures
            final(self)@.tags == dedup_tags(tags.deep_view()),
            tags_distinct(final(self)@.tags),
            final(self)@.id == old(self)@.id,
            final(self)@.title == old(self)@.title,
            final(self)@.content == old(self)@.content,
            final(self)@.created_at == old(self)@.created_at,
            final(self)@.updated_at >= old(self)@.updated_at,
            old(self).wf() ==> final(self).wf(),
    {
        self.tags = dedup_exec(&tags);
        self.touch();
    }

    /// Replace the content wholesale and advance the update timestamp.
    pub fn update_content(&mut self, content: Vec<u8>)
        ensures
            final(self)@.content == content@,
            final(self)@.id == old(self)@.id,
            final(self)@.title == old(self)@.title,
            final(self)@.tags == old(self)@.tags,
            final(self)@.created_at == old(self)@.created_at,
            final(self)@.updated_at >= old(self)@.updated_at,
            old(self).wf() ==> final(self).wf(),
    {
        self.content = content;
        self.touch();
    }
}

impl Clone for Card {
    /// A clone holds exactly the same value.
    fn clone(&self) -> (r: Self)
        ensures
            r@ == self@,
    {
        Card {
            id: self.id,
            title: copy_bytes(&self.title),
            tags: copy_tags(&self.tags),
            content: copy_bytes(&self.content),
            created_at: self.created_at,
            updated_at: self.updated_at,
        }
    }
}

} // verus!
