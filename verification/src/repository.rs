//! The repository: the in-memory card index together with the byte
//! image of its backing file.
//!
//! The repository never touches a file itself. Construction takes the
//! bytes the caller read (or `None` where no file existed yet), and
//! every mutating operation hands back the freshly encoded image that
//! the caller must write before reporting success. An operation that
//! changes nothing hands back no image: no spurious write happens.

use vstd::prelude::*;
use crate::card::{Card, CardId, CardView, RepoError, dedup_tags, tags_distinct};
use crate::codec::{
    encode_cards, decode_cards, encode_spec, decode_spec, cards_bounded, lemma_encode_decode,
};

verus! {

/// The card mapped to `id`, scanning front to back. With distinct
/// identifiers this is the mapping the repository maintains.
pub open spec fn lookup(s: Seq<CardView>, id: u128) -> Option<CardView>
    decreases s.len(),
{
    if s.len() == 0 {
        None
    } else if s[0].id == id {
        Some(s[0])
    } else {
        lookup(s.skip(1), id)
    }
}

/// The identifiers are unique keys.
pub open spec fn ids_distinct(s: Seq<CardView>) -> bool {
    forall|i: int, j: int| 0 <= i < j < s.len() ==> s[i].id != s[j].id
}

proof fn lemma_skip_distinct(s: Seq<CardView>)
    requires
        ids_distinct(s),
        s.len() > 0,
    ensures
        ids_distinct(s.skip(1)),
{
    assert forall|i: int, j: int| 0 <= i < j < s.skip(1).len() implies s.skip(1)[i].id != s.skip(
        1,
    )[j].id by {
        assert(s.skip(1)[i] == s[i + 1]);
        assert(s.skip(1)[j] == s[j + 1]);
    }
}

/// `lookup` misses exactly where no entry carries the identifier.
proof fn lemma_lookup_none(s: Seq<CardView>, id: u128)
    ensures
        (lookup(s, id) is None) <==> (forall|j: int| 0 <= j < s.len() ==> s[j].id != id),
    decreases s.len(),
{
    if s.len() == 0 {
    } else if s[0].id == id {
    } else {
        lemma_lookup_none(s.skip(1), id);
        if lookup(s, id) is None {
            assert forall|j: int| 0 <= j < s.len() implies s[j].id != id by {
                if j > 0 {
                    assert(s.skip(1)[j - 1] == s[j]);
                }
            }
        } else {
            let j = choose|j: int| 0 <= j < s.skip(1).len() && s.skip(1)[j].id == id;
            assert(s[j + 1].id == id);
        }
    }
}

/// With distinct identifiers, `lookup` of the identifier at `i` finds
/// exactly the entry at `i`.
proof fn lemma_lookup_at(s: Seq<CardView>, i: int)
    requires
        ids_distinct(s),
        0 <= i < s.len(),
    ensures
        lookup(s, s[i].id) == Some(s[i]),
    decreases i,
{
    if i == 0 {
    } else {
        lemma_skip_distinct(s);
        assert(s.skip(1)[i - 1] == s[i]);
        lemma_lookup_at(s.skip(1), i - 1);
        assert(s[0].id != s[i].id);
    }
}

/// Appending an entry leaves every present key as it was and maps the
/// new key where it was absent.
proof fn lemma_lookup_push(s: Seq<CardView>, c: CardView, x: u128)
    ensures
        lookup(s.push(c), x) == (match lookup(s, x) {
            Some(r) => Some(r),
            None => if c.id == x {
                Some(c)
            } else {
                None
            },
        }),
    decreases s.len(),
{
    reveal_with_fuel(lookup, 3);
    if s.len() == 0 {
        assert(s.push(c)[0] == c);
        assert(s.push(c).skip(1) =~= Seq::<CardView>::empty());
    } else {
        assert(s.push(c)[0] == s[0]);
        assert(s.push(c).skip(1) =~= s.skip(1).push(c));
        lemma_lookup_push(s.skip(1), c, x);
    }
}

/// Removing the entry at `i` erases exactly its key.
proof fn lemma_lookup_remove(s: Seq<CardView>, i: int, x: u128)
    requires
        ids_distinct(s),
        0 <= i < s.len(),
    ensures
        lookup(s.remove(i), x) == (if x == s[i].id {
            None::<CardView>
        } else {
            lookup(s, x)
        }),
    decreases i,
{
    reveal_with_fuel(lookup, 3);
    if i == 0 {
        assert(s.remove(0) =~= s.skip(1));
        if x == s[0].id {
            lemma_lookup_none(s.skip(1), x);
            assert forall|j: int| 0 <= j < s.skip(1).len() implies s.skip(1)[j].id != x by {
                assert(s.skip(1)[j] == s[j + 1]);
            }
        }
    } else {
        assert(s.remove(i)[0] == s[0]);
        assert(s.remove(i).skip(1) =~= s.skip(1).remove(i - 1));
        lemma_skip_distinct(s);
        assert(s.skip(1)[i - 1] == s[i]);
        lemma_lookup_remove(s.skip(1), i - 1, x);
    }
}

proof fn lemma_remove_distinct(s: Seq<CardView>, i: int)
    requires
        ids_distinct(s),
        0 <= i < s.len(),
    ensures
        ids_distinct(s.remove(i)),
{
    assert forall|p: int, q: int| 0 <= p < q < s.remove(i).len() implies s.remove(i)[p].id
        != s.remove(i)[q].id by {
        let p2: int = if p < i { p } else { p + 1 };
        let q2: int = if q < i { q } else { q + 1 };
        assert(s.remove(i)[p] == s[p2]);
        assert(s.remove(i)[q] == s[q2]);
    }
}

/// The repository: the logical name it was opened under and the cards
/// it holds, keyed by their identifiers.
pub struct Repository {
    pub name: String,
    pub cards: Vec<Card>,
}

impl Repository {
    /// The mapping the repository represents, as the list of card
    /// values it holds.
    pub open spec fn model(&self) -> Seq<CardView> {
        self.cards.deep_view()
    }

    /// Well-formed: the identifiers are unique keys.
    pub open spec fn wf(&self) -> bool {
        ids_distinct(self.model())
    }

    /// The card mapped to `id`, if any.
    pub open spec fn spec_get(&self, id: u128) -> Option<CardView> {
        lookup(self.model(), id)
    }

    /// The index holding `id`, if any.
    fn find_idx(&self, id: &CardId) -> (r: Option<usize>)
        requires
            self.wf(),
        ensures
            match r {
                Some(i) => i < self.cards.len() && self.model()[i as int].id == id.bits
                    && self.spec_get(id.bits) == Some(self.model()[i as int]),
                None => self.spec_get(id.bits) is None,
            },
    {
        let mut i: usize = 0;
        while i < self.cards.len()
            invariant
                i <= self.cards.len(),
                self.wf(),
                forall|j: int| 0 <= j < i ==> self.model()[j].id != id.bits,
            decreases self.cards.len() - i,
        {
            proof {
                assert(self.model()[i as int] == self.cards[i as int]@);
            }
            if self.cards[i].id.bits == id.bits {
                proof {
                    lemma_lookup_at(self.model(), i as int);
                }
                return Some(i);
            }
            i += 1;
        }
        proof {
            lemma_lookup_none(self.model(), id.bits);
        }
        None
    }

    /// Construct the repository that `open` needs: from the bytes of
    /// an existing backing file, or fresh and empty where none
    /// existed. In the fresh case the second result holds the initial
    /// file image, which the caller must write at once so that the
    /// file exists after construction.
    pub fn new(name: String, contents: Option<Vec<u8>>) -> (r: Result<
        (Repository, Option<Vec<u8>>),
        RepoError,
    >)
        ensures
            match r {
                Ok(p) => {
                    &&& p.0.wf()
                    &&& p.0.name@ == name@
                    &&& match contents {
                        None => {
                            &&& p.0.model() == Seq::<CardView>::empty()
                            &&& p.1 matches Some(init) && init@ == encode_spec(
                                Seq::<CardView>::empty(),
                            )
                        },
                        Some(b) => {
                            &&& decode_spec(b@) == Some(p.0.model())
                            &&& p.1 is None
                        },
                    }
                },
                Err(e) => {
                    &&& e == RepoError::Decode
                    &&& contents matches Some(b) && (decode_spec(b@) is None || (decode_spec(b@)
                        matches Some(cs) && !ids_distinct(cs)))
                },
            },
    {
        match contents {
            None => {
                let repo = Repository { name, cards: Vec::new() };
                proof {
                    assert(repo.model() =~~= Seq::<CardView>::empty());
                }
                let init = encode_cards(&repo.cards);
                Ok((repo, Some(init)))
            },
            Some(b) => {
                match decode_cards(&b) {
                    None => Err(RepoError::Decode),
                    Some(cards) => {
                        if ids_all_distinct(&cards) {
                            Ok((Repository { name, cards }, None))
                        } else {
                            Err(RepoError::Decode)
                        }
                    },
                }
            },
        }
    }

    /// The byte image of the whole mapping, as the backing file must
    /// hold it.
    pub fn save(&self) -> (r: Vec<u8>)
        ensures
            r@ == encode_spec(self.model()),
    {
        encode_cards(&self.cards)
    }

    /// Insert `card`, replacing any entry that carries the same
    /// identifier.
    fn upsert(&mut self, card: Card)
        requires
            old(self).wf(),
        ensures
            final(self).wf(),
            final(self).name == old(self).name,
            lookup(final(self).model(), card@.id) == Some(card@),
            forall|x: u128| x != card@.id ==> lookup(final(self).model(), x) == lookup(
                old(self).model(),
                x,
            ),
    {
        let ghost pre = self.model();
        let ghost cv = card@;
        match self.find_idx(&card.id) {
            Some(i) => {
                let ghost ii = i as int;
                let _ = self.cards.remove(i);
                proof {
                    assert(self.model() =~~= pre.remove(ii));
                    lemma_remove_distinct(pre, ii);
                    lemma_lookup_none(pre.remove(ii), cv.id);
                    assert forall|x: u128| true implies lookup(pre.remove(ii), x) == (if x
                        == pre[ii].id {
                        None::<CardView>
                    } else {
                        lookup(pre, x)
                    }) by {
                        lemma_lookup_remove(pre, ii, x);
                    }
                }
                let ghost mid = self.model();
                self.cards.push(card);
                proof {
                    assert(self.model() =~~= mid.push(cv));
                    lemma_lookup_none(mid, cv.id);
                    assert forall|x: u128| true implies lookup(mid.push(cv), x) == (match lookup(
                        mid,
                        x,
                    ) {
                        Some(r) => Some(r),
                        None => if cv.id == x {
                            Some(cv)
                        } else {
                            None
                        },
                    }) by {
                        lemma_lookup_push(mid, cv, x);
                    }
                    assert forall|p: int, q: int|
                        0 <= p < q < self.model().len() implies self.model()[p].id
                        != self.model()[q].id by {
                        if q < mid.len() {
                        } else {
                            assert(self.model()[q] == cv);
                            assert(mid[p].id != cv.id);
                        }
                    }
                }
            },
            None => {
                self.cards.push(card);
                proof {
                    assert(self.model() =~~= pre.push(cv));
                    lemma_lookup_none(pre, cv.id);
                    assert forall|x: u128| true implies lookup(pre.push(cv), x) == (match lookup(
                        pre,
                        x,
                    ) {
                        Some(r) => Some(r),
                        None => if cv.id == x {
                            Some(cv)
                        } else {
                            None
                        },
                    }) by {
                        lemma_lookup_push(pre, cv, x);
                    }
                    assert forall|p: int, q: int|
                        0 <= p < q < self.model().len() implies self.model()[p].id
                        != self.model()[q].id by {
                        if q < pre.len() {
                        } else {
                            assert(self.model()[q] == cv);
                            assert(pre[p].id != cv.id);
                        }
                    }
                }
            },
        }
    }

    /// Create a card, insert it, and hand back the card together with
    /// the new file image.
    pub fn add_card(&mut self, title: Vec<u8>, tags: Vec<Vec<u8>>, content: Vec<u8>) -> (r: (
        Card,
        Vec<u8>,
    ))
        requires
            old(self).wf(),
        ensures
            final(self).wf(),
            final(self).name == old(self).name,
            r.0@.title == title@,
            r.0@.content == content@,
            r.0@.tags == dedup_tags(tags.deep_view()),
            r.0@.created_at == r.0@.updated_at,
            r.0.wf(),
            lookup(final(self).model(), r.0@.id) == Some(r.0@),
            forall|x: u128| x != r.0@.id ==> lookup(final(self).model(), x) == lookup(
                old(self).model(),
                x,
            ),
            r.1@ == encode_spec(final(self).model()),
    {
        let card = Card::new(title, tags, content);
        let kept = card.clone();
        self.upsert(kept);
        let bytes = encode_cards(&self.cards);
        (card, bytes)
    }

    /// Pure lookup: no input or output, no mutation.
    pub fn get_card(&self, id: &CardId) -> (r: Option<&Card>)
        requires
            self.wf(),
        ensures
            match r {
                Some(c) => self.spec_get(id.bits) == Some(c@),
                None => self.spec_get(id.bits) is None,
            },
    {
        match self.find_idx(id) {
            Some(i) => Some(&self.cards[i]),
            None => None,
        }
    }

    /// A snapshot copy of every card currently held.
    pub fn get_all_cards(&self) -> (r: Vec<Card>)
        ensures
            r.deep_view() == self.model(),
    {
        let mut out: Vec<Card> = Vec::new();
        let mut i: usize = 0;
        while i < self.cards.len()
            invariant
                i <= self.cards.len(),
                out.deep_view() == self.model().take(i as int),
            decreases self.cards.len() - i,
        {
            let ghost pre = out.deep_view();
            let c = self.cards[i].clone();
            proof {
                assert(c@ == self.model()[i as int]);
            }
            out.push(c);
            proof {
                assert(out.deep_view() =~~= pre.push(self.model()[i as int]));
                assert(pre.push(self.model()[i as int]) =~~= self.model().take(i as int + 1));
            }
            i += 1;
        }
        proof {
            assert(self.model().take(self.cards.len() as int) =~~= self.model());
        }
        out
    }

    /// Remove the card with this identifier if present. The new file
    /// image comes back only where a removal actually happened: a
    /// missed delete triggers no write.
    pub fn delete_card(&mut self, id: &CardId) -> (r: (bool, Option<Vec<u8>>))
        requires
            old(self).wf(),
        ensures
            final(self).wf(),
            final(self).name == old(self).name,
            r.0 == (lookup(old(self).model(), id.bits) is Some),
            lookup(final(self).model(), id.bits) is None,
            forall|x: u128| x != id.bits ==> lookup(final(self).model(), x) == lookup(
                old(self).model(),
                x,
            ),
            r.0 ==> (r.1 matches Some(b) && b@ == encode_spec(final(self).model())),
            !r.0 ==> r.1 is None && final(self).model() == old(self).model(),
    {
        let ghost pre = self.model();
        match self.find_idx(id) {
            Some(i) => {
                let ghost ii = i as int;
                let _ = self.cards.remove(i);
                proof {
                    assert(self.model() =~~= pre.remove(ii));
                    lemma_remove_distinct(pre, ii);
                    assert forall|x: u128| true implies lookup(pre.remove(ii), x) == (if x
                        == pre[ii].id {
                        None::<CardView>
                    } else {
                        lookup(pre, x)
                    }) by {
                        lemma_lookup_remove(pre, ii, x);
                    }
                }
                let bytes = encode_cards(&self.cards);
                (true, Some(bytes))
            },
            None => (false, None),
        }
    }

    /// Replace the title of the card with this identifier, advance its
    /// update timestamp, and hand back the new file image. A miss
    /// changes nothing and triggers no write.
    pub fn update_card_title(&mut self, id: &CardId, title: Vec<u8>) -> (r: (bool, Option<Vec<u8>>))
        requires
            old(self).wf(),
        ensures
            final(self).wf(),
            final(self).name == old(self).name,
            r.0 == (lookup(old(self).model(), id.bits) is Some),
            !r.0 ==> r.1 is None && final(self).model() == old(self).model(),
            r.0 ==> match (lookup(old(self).model(), id.bits), lookup(
                final(self).model(),
                id.bits,
            )) {
                (Some(c0), Some(c1)) => {
                    &&& c1.title == title@
                    &&& c1.id == c0.id
                    &&& c1.tags == c0.tags
                    &&& c1.content == c0.content
                    &&& c1.created_at == c0.created_at
                    &&& c1.updated_at >= c0.updated_at
                },
                _ => false,
            },
            forall|x: u128| x != id.bits ==> lookup(final(self).model(), x) == lookup(
                old(self).model(),
                x,
            ),
            r.0 ==> (r.1 matches Some(b) && b@ == encode_spec(final(self).model())),
    {
        let ghost pre = self.model();
        match self.find_idx(id) {
            Some(i) => {
                let ghost ii = i as int;
                let mut card = self.cards.remove(i);
                proof {
                    assert(self.model() =~~= pre.remove(ii));
                    lemma_remove_distinct(pre, ii);
                    assert forall|x: u128| true implies lookup(pre.remove(ii), x) == (if x
                        == pre[ii].id {
                        None::<CardView>
                    } else {
                        lookup(pre, x)
                    }) by {
                        lemma_lookup_remove(pre, ii, x);
                    }
                    assert(card@ == pre[ii]);
                }
                card.update_title(title);
                let ghost mid = self.model();
                let ghost cv = card@;
                self.cards.push(card);
                proof {
                    assert(self.model() =~~= mid.push(cv));
                    lemma_lookup_none(mid, cv.id);
                    assert forall|x: u128| true implies lookup(mid.push(cv), x) == (match lookup(
                        mid,
                        x,
                    ) {
                        Some(r2) => Some(r2),
                        None => if cv.id == x {
                            Some(cv)
                        } else {
                            None
                        },
                    }) by {
                        lemma_lookup_push(mid, cv, x);
                    }
                    assert forall|p: int, q: int|
                        0 <= p < q < self.model().len() implies self.model()[p].id
                        != self.model()[q].id by {
                        if q < mid.len() {
                        } else {
                            assert(self.model()[q] == cv);
                            assert(mid[p].id != cv.id);
                        }
                    }
                }
                let bytes = encode_cards(&self.cards);
                (true, Some(bytes))
            },
            None => (false, None),
        }
    }

    /// Replace the tag set of the card with this identifier (a full
    /// replacement, deduplicated), advance its update timestamp, and
    /// hand back the new file image. A miss changes nothing.
    pub fn update_card_tags(&mut self, id: &CardId, tags: Vec<Vec<u8>>) -> (r: (
        bool,
        Option<Vec<u8>>,
    ))
        requires
            old(self).wf(),
        ensures
            final(self).wf(),
            final(self).name == old(self).name,
            r.0 == (lookup(old(self).model(), id.bits) is Some),
            !r.0 ==> r.1 is None && final(self).model() == old(self).model(),
            r.0 ==> match (lookup(old(self).model(), id.bits), lookup(
                final(self).model(),
                id.bits,
            )) {
                (Some(c0), Some(c1)) => {
                    &&& c1.tags == dedup_tags(tags.deep_view())
                    &&& tags_distinct(c1.tags)
                    &&& c1.id == c0.id
                    &&& c1.title == c0.title
                    &&& c1.content == c0.content
                    &&& c1.created_at == c0.created_at
                    &&& c1.updated_at >= c0.updated_at
                },
                _ => false,
            },
            forall|x: u128| x != id.bits ==> lookup(final(self).model(), x) == lookup(
                old(self).model(),
                x,
            ),
            r.0 ==> (r.1 matches Some(b) && b@ == encode_spec(final(self).model())),
    {
        let ghost pre = self.model();
        match self.find_idx(id) {
            Some(i) => {
                let ghost ii = i as int;
                let mut card = self.cards.remove(i);
                proof {
                    assert(self.model() =~~= pre.remove(ii));
                    lemma_remove_distinct(pre, ii);
                    assert forall|x: u128| true implies lookup(pre.remove(ii), x) == (if x
                        == pre[ii].id {
                        None::<CardView>
                    } else {
                        lookup(pre, x)
                    }) by {
                        lemma_lookup_remove(pre, ii, x);
                    }
                    assert(card@ == pre[ii]);
                }
                card.update_tags(tags);
                let ghost mid = self.model();
                let ghost cv = card@;
                self.cards.push(card);
                proof {
                    assert(self.model() =~~= mid.push(cv));
                    lemma_lookup_none(mid, cv.id);
                    assert forall|x: u128| true implies lookup(mid.push(cv), x) == (match lookup(
                        mid,
                        x,
                    ) {
                        Some(r2) => Some(r2),
                        None => if cv.id == x {
                            Some(cv)
                        } else {
                            None
                        },
                    }) by {
                        lemma_lookup_push(mid, cv, x);
                    }
                    assert forall|p: int, q: int|
                        0 <= p < q < self.model().len() implies self.model()[p].id
                        != self.model()[q].id by {
                        if q < mid.len() {
                        } else {
                            assert(self.model()[q] == cv);
                            assert(mid[p].id != cv.id);
                        }
                    }
                }
                let bytes = encode_cards(&self.cards);
                (true, Some(bytes))
            },
            None => (false, None),
        }
    }

    /// Replace the content of the card with this identifier, advance
    /// its update timestamp, and hand back the new file image. A miss
    /// changes nothing.
    pub fn update_card_content(&mut self, id: &CardId, content: Vec<u8>) -> (r: (
        bool,
        Option<Vec<u8>>,
    ))
        requires
            old(self).wf(),
        ensures
            final(self).wf(),
            final(self).name == old(self).name,
            r.0 == (lookup(old(self).model(), id.bits) is Some),
            !r.0 ==> r.1 is None && final(self).model() == old(self).model(),
            r.0 ==> match (lookup(old(self).model(), id.bits), lookup(
                final(self).model(),
                id.bits,
            )) {
                (Some(c0), Some(c1)) => {
                    &&& c1.content == content@
                    &&& c1.id == c0.id
                    &&& c1.title == c0.title
                    &&& c1.tags == c0.tags
                    &&& c1.created_at == c0.created_at
                    &&& c1.updated_at >= c0.updated_at
                },
                _ => false,
            },
            forall|x: u128| x != id.bits ==> lookup(final(self).model(), x) == lookup(
                old(self).model(),
                x,
            ),
            r.0 ==> (r.1 matches Some(b) && b@ == encode_spec(final(self).model())),
    {
        let ghost pre = self.model();
        match self.find_idx(id) {
            Some(i) => {
                let ghost ii = i as int;
                let mut card = self.cards.remove(i);
                proof {
                    assert(self.model() =~~= pre.remove(ii));
                    lemma_remove_distinct(pre, ii);
                    assert forall|x: u128| true implies lookup(pre.remove(ii), x) == (if x
                        == pre[ii].id {
                        None::<CardView>
                    } else {
                        lookup(pre, x)
                    }) by {
                        lemma_lookup_remove(pre, ii, x);
                    }
                    assert(card@ == pre[ii]);
                }
                card.update_content(content);
                let ghost mid = self.model();
                let ghost cv = card@;
                self.cards.push(card);
                proof {
                    assert(self.model() =~~= mid.push(cv));
                    lemma_lookup_none(mid, cv.id);
                    assert forall|x: u128| true implies lookup(mid.push(cv), x) == (match lookup(
                        mid,
                        x,
                    ) {
                        Some(r2) => Some(r2),
                        None => if cv.id == x {
                            Some(cv)
                        } else {
                            None
                        },
                    }) by {
                        lemma_lookup_push(mid, cv, x);
                    }
                    assert forall|p: int, q: int|
                        0 <= p < q < self.model().len() implies self.model()[p].id
                        != self.model()[q].id by {
                        if q < mid.len() {
                        } else {
                            assert(self.model()[q] == cv);
                            assert(mid[p].id != cv.id);
                        }
                    }
                }
                let bytes = encode_cards(&self.cards);
                (true, Some(bytes))
            },
            None => (false, None),
        }
    }
}

/// Whether every card in the list carries its own identifier.
fn ids_all_distinct(cards: &Vec<Card>) -> (r: bool)
    ensures
        r == ids_distinct(cards.deep_view()),
{
    let ghost dv = cards.deep_view();
    let mut i: usize = 0;
    while i < cards.len()
        invariant
            i <= cards.len(),
            dv == cards.deep_view(),
            forall|p: int, q: int| 0 <= p < q < cards.len() && p < i ==> dv[p].id != dv[q].id,
        decreases cards.len() - i,
    {
        let mut j: usize = i + 1;
        while j < cards.len()
            invariant
                i < cards.len(),
                i < j,
                j <= cards.len(),
                dv == cards.deep_view(),
                forall|q: int| i < q < j ==> dv[i as int].id != dv[q].id,
            decreases cards.len() - j,
        {
            proof {
                assert(dv[i as int] == cards[i as int]@);
                assert(dv[j as int] == cards[j as int]@);
            }
            if cards[i].id.bits == cards[j].id.bits {
                return false;
            }
            j += 1;
        }
        i += 1;
    }
    true
}

/// Round trip of persistence: the file image that `save` yields for
/// any well-formed repository within machine bounds decodes back to
/// exactly the mapping that was saved. Together with the contracts of
/// `Repository::new`, re-opening a saved image reconstructs the same
/// mapping.
pub proof fn lemma_save_open_round_trip(repo: Repository)
    requires
        repo.wf(),
        cards_bounded(repo.model()),
    ensures
        decode_spec(encode_spec(repo.model())) == Some(repo.model()),
{
    lemma_encode_decode(repo.model());
}

} // verus!
