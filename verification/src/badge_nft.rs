//! Badge Ledger: an append-only list of issued credentials with a monotonic
//! token-id allocator and an owner-keyed secondary index.
//!
//! The primary list holds every issued badge in mint order; the secondary
//! index maps an owner to the token ids of that owner's badges, also in mint
//! order. A missing index entry reads as an empty one. The counter only
//! moves by the mint path, except that `initialize` unconditionally resets
//! it to zero (destructive after mints; see the contract of `initialize`).

use vstd::prelude::*;

verus! {

/// An issued credential. All fields are immutable once stored.
pub struct BadgeMetadata {
    /// System-generated sequential identifier, starting at 1.
    pub token_id: u64,
    /// Identity reference of the badge holder, authenticated at mint time.
    pub owner: String,
    /// Caller-supplied test identifier; not validated against any catalog.
    pub test_id: String,
    /// Opaque pointer to off-ledger metadata.
    pub metadata_uri: String,
    /// Timestamp assigned by the caller's clock at mint time.
    pub minted_at: u64,
}

/// The mathematical value of a `BadgeMetadata`.
pub struct BadgeView {
    pub token_id: u64,
    pub owner: Seq<char>,
    pub test_id: Seq<char>,
    pub metadata_uri: Seq<char>,
    pub minted_at: u64,
}

impl View for BadgeMetadata {
    type V = BadgeView;

    open spec fn view(&self) -> BadgeView {
        BadgeView {
            token_id: self.token_id,
            owner: self.owner@,
            test_id: self.test_id@,
            metadata_uri: self.metadata_uri@,
            minted_at: self.minted_at,
        }
    }
}

impl Clone for BadgeMetadata {
    fn clone(&self) -> (r: Self)
        ensures
            r == *self,
    {
        BadgeMetadata {
            token_id: self.token_id,
            owner: self.owner.clone(),
            test_id: self.test_id.clone(),
            metadata_uri: self.metadata_uri.clone(),
            minted_at: self.minted_at,
        }
    }
}

/// Minting without valid proof of control over the receiver's identity is
/// rejected with this error, before any state change.
#[derive(Clone, Copy, PartialEq, Eq, Structural, Debug)]
pub struct AuthorizationError;

/// One entry of the secondary index: an owner and the token ids of that
/// owner's badges, in mint order.
pub struct OwnerEntry {
    pub owner: String,
    pub token_ids: Vec<u64>,
}

/// The views of a sequence of stored badges.
pub open spec fn views_of_badges(s: Seq<BadgeMetadata>) -> Seq<BadgeView> {
    s.map_values(|b: BadgeMetadata| b@)
}

/// Token ids of the given owner's badges, in mint order.
pub open spec fn owned_ids(badges: Seq<BadgeView>, owner: Seq<char>) -> Seq<u64>
    decreases badges.len(),
{
    if badges.len() == 0 {
        Seq::empty()
    } else {
        let rest = owned_ids(badges.drop_last(), owner);
        if badges.last().owner == owner {
            rest.push(badges.last().token_id)
        } else {
            rest
        }
    }
}

/// The given owner's badges, in mint order.
pub open spec fn owned_badges(badges: Seq<BadgeView>, owner: Seq<char>) -> Seq<BadgeView>
    decreases badges.len(),
{
    if badges.len() == 0 {
        Seq::empty()
    } else {
        let rest = owned_badges(badges.drop_last(), owner);
        if badges.last().owner == owner {
            rest.push(badges.last())
        } else {
            rest
        }
    }
}

/// The first badge (scanning from the front) with this token id, if any.
pub open spec fn first_badge(badges: Seq<BadgeView>, token_id: u64) -> Option<BadgeView>
    decreases badges.len(),
{
    if badges.len() == 0 {
        None
    } else if badges[0].token_id == token_id {
        Some(badges[0])
    } else {
        first_badge(badges.drop_first(), token_id)
    }
}

/// Resolve a list of token ids against the primary list, keeping the first
/// match for each id and silently skipping ids that resolve to nothing.
pub open spec fn resolve_ids(badges: Seq<BadgeView>, ids: Seq<u64>) -> Seq<BadgeView>
    decreases ids.len(),
{
    if ids.len() == 0 {
        Seq::empty()
    } else {
        let rest = resolve_ids(badges, ids.drop_last());
        match first_badge(badges, ids.last()) {
            Some(b) => rest.push(b),
            None => rest,
        }
    }
}

/// First-match lookup in the secondary index; a missing owner reads as an
/// empty entry.
pub open spec fn lookup_ids(entries: Seq<OwnerEntry>, owner: Seq<char>) -> Seq<u64>
    decreases entries.len(),
{
    if entries.len() == 0 {
        Seq::empty()
    } else if entries[0].owner@ == owner {
        entries[0].token_ids@
    } else {
        lookup_ids(entries.drop_first(), owner)
    }
}

/// No two badges carry the same token id.
pub open spec fn unique_ids(badges: Seq<BadgeView>) -> bool {
    forall|i: int, j: int|
        0 <= i < j < badges.len() ==> badges[i].token_id != badges[j].token_id
}

/// Some badge in the sequence carries this test id.
pub open spec fn seq_has_test(badges: Seq<BadgeView>, test_id: Seq<char>) -> bool {
    exists|i: int| 0 <= i < badges.len() && badges[i].test_id == test_id
}

/// Some badge was minted to this owner for this test id.
pub open spec fn has_badge(badges: Seq<BadgeView>, owner: Seq<char>, test_id: Seq<char>) -> bool {
    exists|i: int|
        0 <= i < badges.len() && badges[i].owner == owner && badges[i].test_id == test_id
}

/// The Badge Ledger: counter, primary list and secondary index.
pub struct BadgeNFT {
    /// The monotonic allocator; the last token id handed out.
    pub counter: u64,
    /// The primary list, in mint order.
    pub badges: Vec<BadgeMetadata>,
    /// The owner-keyed secondary index.
    pub owner_index: Vec<OwnerEntry>,
}

impl BadgeNFT {
    /// The issued badges as a sequence of views, in mint order.
    pub open spec fn spec_badges(self) -> Seq<BadgeView> {
        views_of_badges(self.badges@)
    }

    /// The allocator's current value.
    pub open spec fn spec_counter(self) -> u64 {
        self.counter
    }

    /// The secondary-index entry of an owner (empty if the owner has none).
    pub open spec fn spec_owner_ids(self, owner: Seq<char>) -> Seq<u64> {
        lookup_ids(self.owner_index@, owner)
    }

    /// Dual-structure consistency: for every owner, the secondary index
    /// holds exactly the token ids of that owner's badges, in mint order.
    /// Every operation preserves this, including a destructive re-run of
    /// `initialize`.
    pub open spec fn wf(self) -> bool {
        forall|o: Seq<char>| #[trigger] self.spec_owner_ids(o) == owned_ids(self.spec_badges(), o)
    }

    /// The allocator has never been reset after a mint: token ids are
    /// exactly 1, 2, ..., counter in mint order. `new` establishes this and
    /// `mint_badge` preserves it; only `initialize` on a non-empty ledger
    /// breaks it.
    pub open spec fn ids_sequential(self) -> bool {
        &&& self.spec_counter() == self.spec_badges().len()
        &&& forall|i: int|
            0 <= i < self.spec_badges().len() ==> (#[trigger] self.spec_badges()[i]).token_id as int
                == i + 1
    }

    /// An empty ledger: the state before any storage exists. The counter
    /// reads as zero, matching the read-as-zero fallback of uninitialized
    /// storage.
    pub fn new() -> (r: BadgeNFT)
        ensures
            r.wf(),
            r.ids_sequential(),
            r.spec_counter() == 0,
            r.spec_badges() == Seq::<BadgeView>::empty(),
            forall|o: Seq<char>| #[trigger] r.spec_owner_ids(o) == Seq::<u64>::empty(),
    {
        let r = BadgeNFT { counter: 0, badges: Vec::new(), owner_index: Vec::new() };
        proof {
            assert(r.spec_badges() =~= Seq::<BadgeView>::empty());
            assert forall|o: Seq<char>| #[trigger] r.spec_owner_ids(o) == Seq::<u64>::empty() by {
                assert(r.owner_index@.len() == 0);
            }
        }
        r
    }

    /// Set the counter to zero. Idempotent on a fresh ledger; destructive
    /// after mints (subsequent mints would reuse token ids), which this
    /// contract states rather than hides: badges and index are untouched
    /// and `ids_sequential` survives only when no badge exists.
    pub fn initialize(&mut self)
        ensures
            final(self).counter == 0,
            final(self).badges == old(self).badges,
            final(self).owner_index == old(self).owner_index,
            old(self).wf() ==> final(self).wf(),
            old(self).spec_badges().len() == 0 ==> final(self).ids_sequential(),
    {
        self.counter = 0;
        proof {
            if old(self).wf() {
                assert forall|o: Seq<char>| #[trigger] self.spec_owner_ids(o) == owned_ids(
                    self.spec_badges(),
                    o,
                ) by {
                    assert(old(self).spec_owner_ids(o) == owned_ids(old(self).spec_badges(), o));
                }
            }
        }
    }

    /// Mint a badge: gate on the authorization proof, allocate the next
    /// token id, append to the primary list, and append the id to the
    /// receiver's index entry (creating it if absent).
    ///
    /// Without authorization nothing changes. With it, the new state is the
    /// old one with exactly one badge appended, built from the inputs and
    /// the freshly allocated id; the receiver's index entry grows by that
    /// id and every other owner's entry is untouched. No duplicate
    /// prevention: minting twice for the same pair yields two badges.
    pub fn mint_badge(
        &mut self,
        receiver: String,
        test_id: String,
        metadata_uri: String,
        minted_at: u64,
        authorized: bool,
    ) -> (r: Result<BadgeMetadata, AuthorizationError>)
        requires
            old(self).wf(),
            old(self).counter < u64::MAX,
        ensures
            final(self).wf(),
            !authorized ==> r is Err && *final(self) == *old(self),
            authorized ==> (r matches Ok(b)
                && b@ == (BadgeView {
                    token_id: (old(self).spec_counter() + 1) as u64,
                    owner: receiver@,
                    test_id: test_id@,
                    metadata_uri: metadata_uri@,
                    minted_at,
                })
                && final(self).spec_counter() == old(self).spec_counter() + 1
                && final(self).spec_badges() == old(self).spec_badges().push(b@)
                && final(self).spec_owner_ids(receiver@) == old(self).spec_owner_ids(
                    receiver@,
                ).push(b@.token_id)
                && (forall|o: Seq<char>|
                    o != receiver@ ==> #[trigger] final(self).spec_owner_ids(o) == old(
                        self,
                    ).spec_owner_ids(o))
                && has_badge(final(self).spec_badges(), receiver@, test_id@)
                && (old(self).ids_sequential() ==> final(self).ids_sequential())),
            forall|o: Seq<char>, t: Seq<char>|
                has_badge(old(self).spec_badges(), o, t) ==> has_badge(
                    final(self).spec_badges(),
                    o,
                    t,
                ),
    {
        if !authorized {
            return Err(AuthorizationError);
        }
        let token_id = self.counter + 1;
        self.counter = token_id;

        let badge = BadgeMetadata {
            token_id,
            owner: receiver.clone(),
            test_id: test_id.clone(),
            metadata_uri: metadata_uri.clone(),
            minted_at,
        };
        let returned = badge.clone();
        let ghost old_badges = self.spec_badges();
        self.badges.push(badge);
        proof {
            assert(self.spec_badges() =~= old_badges.push(returned@));
            assert(self.spec_badges().drop_last() =~= old_badges);
        }

        let ghost old_entries = self.owner_index@;
        match self.find_owner_entry(&receiver) {
            Some(j) => {
                proof {
                    lemma_lookup_first_match(old_entries, j as int, receiver@);
                }
                self.owner_index[j].token_ids.push(token_id);
                proof {
                    lemma_lookup_first_match(self.owner_index@, j as int, receiver@);
                    assert forall|o: Seq<char>| o != receiver@ implies #[trigger] self
                        .spec_owner_ids(o) == old(self).spec_owner_ids(o) by {
                        lemma_lookup_same_entries(old_entries, self.owner_index@, j as int, o);
                    }
                }
            },
            None => {
                proof {
                    lemma_lookup_no_match(old_entries, receiver@);
                }
                let mut ids: Vec<u64> = Vec::new();
                ids.push(token_id);
                proof {
                    assert(ids@ =~= Seq::<u64>::empty().push(token_id));
                }
                self.owner_index.push(OwnerEntry { owner: receiver, token_ids: ids });
                proof {
                    lemma_lookup_first_match(
                        self.owner_index@,
                        old_entries.len() as int,
                        self.owner_index@.last().owner@,
                    );
                    assert forall|o: Seq<char>| o != receiver@ implies #[trigger] self
                        .spec_owner_ids(o) == old(self).spec_owner_ids(o) by {
                        lemma_lookup_push_other(old_entries, self.owner_index@.last(), o);
                        assert(old_entries.push(self.owner_index@.last()) =~= self.owner_index@);
                    }
                }
            },
        }
        proof {
            self.lemma_mint_state(*old(self), returned@);
        }
        Ok(returned)
    }

    /// Re-establish the ledger invariants after the two appends of a mint.
    proof fn lemma_mint_state(self, pre: BadgeNFT, b: BadgeView)
        requires
            pre.wf(),
            self.spec_badges() == pre.spec_badges().push(b),
            self.spec_owner_ids(b.owner) == pre.spec_owner_ids(b.owner).push(b.token_id),
            forall|o: Seq<char>|
                o != b.owner ==> #[trigger] self.spec_owner_ids(o) == pre.spec_owner_ids(o),
        ensures
            self.wf(),
            has_badge(self.spec_badges(), b.owner, b.test_id),
            forall|o: Seq<char>, t: Seq<char>|
                has_badge(pre.spec_badges(), o, t) ==> has_badge(self.spec_badges(), o, t),
    {
        assert(self.spec_badges().drop_last() =~= pre.spec_badges());
        assert(self.spec_badges().last() == b);
        assert forall|o: Seq<char>| #[trigger] self.spec_owner_ids(o) == owned_ids(
            self.spec_badges(),
            o,
        ) by {
            assert(pre.spec_owner_ids(o) == owned_ids(pre.spec_badges(), o));
        }
        let n = self.spec_badges().len();
        assert(self.spec_badges()[n - 1] == b);
        assert(has_badge(self.spec_badges(), b.owner, b.test_id));
        assert forall|o: Seq<char>, t: Seq<char>|
            has_badge(pre.spec_badges(), o, t) implies has_badge(self.spec_badges(), o, t) by {
            let i = choose|i: int|
                0 <= i < pre.spec_badges().len() && pre.spec_badges()[i].owner == o
                    && pre.spec_badges()[i].test_id == t;
            assert(self.spec_badges()[i].owner == o && self.spec_badges()[i].test_id == t);
        }
    }

    /// Index of the first secondary-index entry for this owner, if any.
    fn find_owner_entry(&self, owner: &String) -> (r: Option<usize>)
        ensures
            (match r {
                Some(j) => j < self.owner_index@.len() && self.owner_index@[j as int].owner@
                    == owner@ && forall|i: int|
                    0 <= i < j ==> self.owner_index@[i].owner@ != owner@,
                None => forall|i: int|
                    0 <= i < self.owner_index@.len() ==> self.owner_index@[i].owner@ != owner@,
            }),
    {
        let n = self.owner_index.len();
        let mut i: usize = 0;
        while i < n
            invariant
                n == self.owner_index@.len(),
                i <= n,
                forall|k: int| 0 <= k < i ==> self.owner_index@[k].owner@ != owner@,
            decreases n - i,
        {
            if self.owner_index[i].owner == *owner {
                return Some(i);
            }
            i = i + 1;
        }
        None
    }

    /// Linear scan of the primary list for the first badge with this token
    /// id; `None` if no badge carries it.
    pub fn get_badge(&self, token_id: u64) -> (r: Option<BadgeMetadata>)
        ensures
            (match r {
                Some(b) => first_badge(self.spec_badges(), token_id) == Some(b@),
                None => first_badge(self.spec_badges(), token_id) is None,
            }),
    {
        let n = self.badges.len();
        let mut i: usize = 0;
        proof {
            assert(self.spec_badges().skip(0) =~= self.spec_badges());
        }
        while i < n
            invariant
                n == self.badges.len(),
                i <= n,
                first_badge(self.spec_badges(), token_id) == first_badge(
                    self.spec_badges().skip(i as int),
                    token_id,
                ),
            decreases n - i,
        {
            if self.badges[i].token_id == token_id {
                return Some(self.badges[i].clone());
            }
            proof {
                assert(self.spec_badges().skip(i as int).drop_first() =~= self.spec_badges().skip(
                    i as int + 1,
                ));
            }
            i = i + 1;
        }
        None
    }

    /// Read the owner's index entry (empty if the owner never minted) and
    /// resolve each token id against the primary list, in index order. An
    /// id that resolves to nothing is silently skipped.
    pub fn get_badges_by_owner(&self, owner: &String) -> (r: Vec<BadgeMetadata>)
        ensures
            views_of_badges(r@) == resolve_ids(self.spec_badges(), self.spec_owner_ids(owner@)),
    {
        let mut out: Vec<BadgeMetadata> = Vec::new();
        match self.find_owner_entry(owner) {
            None => {
                proof {
                    lemma_lookup_no_match(self.owner_index@, owner@);
                    assert(views_of_badges(out@) =~= resolve_ids(
                        self.spec_badges(),
                        self.spec_owner_ids(owner@),
                    ));
                }
                out
            },
            Some(j) => {
                proof {
                    lemma_lookup_first_match(self.owner_index@, j as int, owner@);
                }
                let ghost ids = self.owner_index@[j as int].token_ids@;
                let m = self.owner_index[j].token_ids.len();
                let mut k: usize = 0;
                proof {
                    assert(views_of_badges(out@) =~= resolve_ids(self.spec_badges(), ids.take(0)));
                }
                while k < m
                    invariant
                        j < self.owner_index@.len(),
                        ids == self.owner_index@[j as int].token_ids@,
                        m == ids.len(),
                        k <= m,
                        views_of_badges(out@) == resolve_ids(self.spec_badges(), ids.take(k as int)),
                    decreases m - k,
                {
                    let token_id = self.owner_index[j].token_ids[k];
                    let ghost prev = out@;
                    match self.get_badge(token_id) {
                        Some(b) => {
                            out.push(b);
                            proof {
                                assert(views_of_badges(out@) =~= views_of_badges(prev).push(
                                    out@.last()@,
                                ));
                            }
                        },
                        None => {},
                    }
                    proof {
                        assert(ids.take(k as int + 1).drop_last() =~= ids.take(k as int));
                        assert(ids.take(k as int + 1).last() == ids[k as int]);
                    }
                    k = k + 1;
                }
                proof {
                    assert(ids.take(m as int) =~= ids);
                }
                out
            },
        }
    }

    /// The owner of the badge with this token id, or `None` if no badge
    /// carries it.
    pub fn owner_of(&self, token_id: u64) -> (r: Option<String>)
        ensures
            (match first_badge(self.spec_badges(), token_id) {
                Some(b) => r matches Some(o) && o@ == b.owner,
                None => r is None,
            }),
    {
        match self.get_badge(token_id) {
            Some(b) => Some(b.owner),
            None => None,
        }
    }

    /// The counter's current value: the number of mints since the last
    /// initialization (zero if never initialized or never minted).
    pub fn total_supply(&self) -> (r: u64)
        ensures
            r == self.spec_counter(),
    {
        self.counter
    }

    /// The full primary list, in mint order.
    pub fn get_all_badges(&self) -> (r: Vec<BadgeMetadata>)
        ensures
            views_of_badges(r@) == self.spec_badges(),
    {
        let n = self.badges.len();
        let mut out: Vec<BadgeMetadata> = Vec::new();
        let mut i: usize = 0;
        while i < n
            invariant
                n == self.badges.len(),
                i <= n,
                out@.len() == i,
                views_of_badges(out@) == self.spec_badges().take(i as int),
            decreases n - i,
        {
            let ghost prev = out@;
            out.push(self.badges[i].clone());
            proof {
                assert forall|j: int| 0 <= j < i + 1 implies views_of_badges(out@)[j]
                    == self.spec_badges()[j] by {
                    assert(views_of_badges(out@)[j] == out@[j]@);
                    if j < i {
                        assert(out@[j] == prev[j]);
                        assert(views_of_badges(prev)[j] == self.spec_badges().take(i as int)[j]);
                    }
                }
                assert(views_of_badges(out@) =~= self.spec_badges().take(i as int + 1));
            }
            i = i + 1;
        }
        proof {
            assert(self.spec_badges().take(n as int) =~= self.spec_badges());
        }
        out
    }

    /// Whether any badge returned by `get_badges_by_owner` carries this
    /// test id.
    pub fn has_badge_for_test(&self, owner: &String, test_id: &String) -> (r: bool)
        ensures
            r == seq_has_test(
                resolve_ids(self.spec_badges(), self.spec_owner_ids(owner@)),
                test_id@,
            ),
    {
        let badges = self.get_badges_by_owner(owner);
        let n = badges.len();
        let mut i: usize = 0;
        while i < n
            invariant
                n == badges@.len(),
                i <= n,
                views_of_badges(badges@) == resolve_ids(
                    self.spec_badges(),
                    self.spec_owner_ids(owner@),
                ),
                forall|k: int| 0 <= k < i ==> views_of_badges(badges@)[k].test_id != test_id@,
            decreases n - i,
        {
            if badges[i].test_id == *test_id {
                proof {
                    assert(views_of_badges(badges@)[i as int].test_id == test_id@);
                }
                return true;
            }
            i = i + 1;
        }
        false
    }

    /// Size of the owner's secondary-index entry: the count of badges
    /// minted to that owner.
    pub fn balance_of(&self, owner: &String) -> (r: u64)
        ensures
            r as nat == self.spec_owner_ids(owner@).len(),
    {
        match self.find_owner_entry(owner) {
            Some(j) => {
                proof {
                    lemma_lookup_first_match(self.owner_index@, j as int, owner@);
                }
                self.owner_index[j].token_ids.len() as u64
            },
            None => {
                proof {
                    lemma_lookup_no_match(self.owner_index@, owner@);
                }
                0
            },
        }
    }
}

/// A scan for a token id finds a badge exactly when some badge carries
/// that id.
pub proof fn lemma_first_badge_found_iff(badges: Seq<BadgeView>, token_id: u64)
    ensures
        (first_badge(badges, token_id) is Some) <==> exists|i: int|
            0 <= i < badges.len() && badges[i].token_id == token_id,
    decreases badges.len(),
{
    if badges.len() == 0 {
    } else if badges[0].token_id == token_id {
    } else {
        lemma_first_badge_found_iff(badges.drop_first(), token_id);
        if exists|i: int|
            0 <= i < badges.drop_first().len() && badges.drop_first()[i].token_id == token_id {
            let i = choose|i: int|
                0 <= i < badges.drop_first().len() && badges.drop_first()[i].token_id == token_id;
            assert(badges[i + 1].token_id == token_id);
        }
        if exists|i: int| 0 <= i < badges.len() && badges[i].token_id == token_id {
            let i = choose|i: int| 0 <= i < badges.len() && badges[i].token_id == token_id;
            assert(badges.drop_first()[i - 1].token_id == token_id);
        }
    }
}

/// With no two badges sharing a token id, the first-match scan for the id
/// of any badge returns exactly that badge.
pub proof fn lemma_first_badge_unique(badges: Seq<BadgeView>, k: int)
    requires
        unique_ids(badges),
        0 <= k < badges.len(),
    ensures
        first_badge(badges, badges[k].token_id) == Some(badges[k]),
    decreases badges.len(),
{
    if k == 0 {
    } else {
        assert(badges[0].token_id != badges[k].token_id);
        assert forall|i: int, j: int|
            0 <= i < j < badges.drop_first().len() implies badges.drop_first()[i].token_id
            != badges.drop_first()[j].token_id by {
            assert(badges[i + 1].token_id != badges[j + 1].token_id);
        }
        assert(badges.drop_first()[k - 1] == badges[k]);
        lemma_first_badge_unique(badges.drop_first(), k - 1);
    }
}

/// The owner's id list and the owner's badge list agree position by
/// position: same length, the id at each position is the token id of the
/// badge there, that badge was minted to the owner, and it stands in the
/// primary list.
pub proof fn lemma_owned_correspond(badges: Seq<BadgeView>, owner: Seq<char>)
    ensures
        owned_ids(badges, owner).len() == owned_badges(badges, owner).len(),
        forall|k: int|
            0 <= k < owned_badges(badges, owner).len() ==> {
                &&& (#[trigger] owned_badges(badges, owner)[k]).owner == owner
                &&& owned_ids(badges, owner)[k] == owned_badges(badges, owner)[k].token_id
                &&& exists|m: int|
                    0 <= m < badges.len() && badges[m] == owned_badges(badges, owner)[k]
            },
    decreases badges.len(),
{
    if badges.len() == 0 {
    } else {
        lemma_owned_correspond(badges.drop_last(), owner);
        assert forall|k: int| 0 <= k < owned_badges(badges, owner).len() implies {
            &&& (#[trigger] owned_badges(badges, owner)[k]).owner == owner
            &&& owned_ids(badges, owner)[k] == owned_badges(badges, owner)[k].token_id
            &&& exists|m: int| 0 <= m < badges.len() && badges[m] == owned_badges(badges, owner)[k]
        } by {
            let whole = owned_badges(badges, owner);
            let front = owned_badges(badges.drop_last(), owner);
            if k < front.len() {
                assert(whole[k] == front[k]);
                let m = choose|m: int|
                    0 <= m < badges.drop_last().len() && badges.drop_last()[m] == front[k];
                assert(badges[m] == front[k]);
            } else {
                assert(badges.last().owner == owner);
                assert(whole[k] == badges.last());
                assert(badges[badges.len() - 1] == badges.last());
            }
        }
    }
}

/// When every id in the list resolves, the resolved list has one badge per
/// id: the first badge carrying that id.
pub proof fn lemma_resolve_elements(badges: Seq<BadgeView>, ids: Seq<u64>)
    requires
        forall|k: int| 0 <= k < ids.len() ==> (#[trigger] first_badge(badges, ids[k])) is Some,
    ensures
        resolve_ids(badges, ids).len() == ids.len(),
        forall|k: int|
            0 <= k < ids.len() ==> #[trigger] resolve_ids(badges, ids)[k] == first_badge(
                badges,
                ids[k],
            )->Some_0,
    decreases ids.len(),
{
    if ids.len() == 0 {
    } else {
        assert forall|k: int|
            0 <= k < ids.drop_last().len() implies (#[trigger] first_badge(
            badges,
            ids.drop_last()[k],
        )) is Some by {
            assert(ids.drop_last()[k] == ids[k]);
            assert(first_badge(badges, ids[k]) is Some);
        }
        lemma_resolve_elements(badges, ids.drop_last());
        assert(ids.last() == ids[ids.len() - 1]);
        assert(first_badge(badges, ids.last()) is Some);
        assert forall|k: int|
            0 <= k < ids.len() implies #[trigger] resolve_ids(badges, ids)[k] == first_badge(
            badges,
            ids[k],
        )->Some_0 by {
            if k < ids.len() - 1 {
                assert(resolve_ids(badges, ids)[k] == resolve_ids(badges, ids.drop_last())[k]);
                assert(resolve_ids(badges, ids.drop_last())[k] == first_badge(
                    badges,
                    ids.drop_last()[k],
                )->Some_0);
                assert(ids.drop_last()[k] == ids[k]);
            }
        }
    }
}

/// Every badge minted to an owner appears in that owner's badge list.
pub proof fn lemma_owned_contains(badges: Seq<BadgeView>, owner: Seq<char>, i: int)
    requires
        0 <= i < badges.len(),
        badges[i].owner == owner,
    ensures
        exists|k: int|
            0 <= k < owned_badges(badges, owner).len() && owned_badges(badges, owner)[k]
                == badges[i],
    decreases badges.len(),
{
    if i == badges.len() - 1 {
        assert(badges.last() == badges[i]);
        let whole = owned_badges(badges, owner);
        assert(whole[whole.len() - 1] == badges[i]);
    } else {
        assert(badges.drop_last()[i] == badges[i]);
        lemma_owned_contains(badges.drop_last(), owner, i);
        let front = owned_badges(badges.drop_last(), owner);
        let k = choose|k: int| 0 <= k < front.len() && front[k] == badges[i];
        assert(owned_badges(badges, owner)[k] == badges[i]);
    }
}

/// For every owner of a consistent ledger, `balance_of` counts exactly the
/// badges minted to that owner, and `get_badges_by_owner` returns exactly
/// that many records — however the counter was (re)initialized.
pub proof fn lemma_balance_matches_owner_records(s: BadgeNFT, owner: Seq<char>)
    requires
        s.wf(),
    ensures
        s.spec_owner_ids(owner).len() == owned_badges(s.spec_badges(), owner).len(),
        resolve_ids(s.spec_badges(), s.spec_owner_ids(owner)).len() == s.spec_owner_ids(
            owner,
        ).len(),
{
    lemma_owned_correspond(s.spec_badges(), owner);
    let ids = s.spec_owner_ids(owner);
    assert(ids == owned_ids(s.spec_badges(), owner));
    assert forall|k: int| 0 <= k < ids.len() implies (#[trigger] first_badge(
        s.spec_badges(),
        ids[k],
    )) is Some by {
        let b = owned_badges(s.spec_badges(), owner)[k];
        let m = choose|m: int|
            0 <= m < s.spec_badges().len() && s.spec_badges()[m] == owned_badges(
                s.spec_badges(),
                owner,
            )[k];
        lemma_first_badge_found_iff(s.spec_badges(), ids[k]);
        assert(s.spec_badges()[m].token_id == ids[k]);
    }
    lemma_resolve_elements(s.spec_badges(), ids);
}

/// Token ids are handed out strictly increasing, gap-free from 1, and the
/// counter equals the number of badges, as long as the ledger has not been
/// destructively re-initialized after a mint.
pub proof fn lemma_token_ids_strictly_increasing(s: BadgeNFT)
    requires
        s.ids_sequential(),
    ensures
        forall|i: int, j: int|
            0 <= i < j < s.spec_badges().len() ==> (#[trigger] s.spec_badges()[i]).token_id < (
            #[trigger] s.spec_badges()[j]).token_id,
        forall|i: int|
            0 <= i < s.spec_badges().len() ==> 1 <= (#[trigger] s.spec_badges()[i]).token_id
                <= s.spec_counter(),
        s.spec_counter() == s.spec_badges().len(),
        unique_ids(s.spec_badges()),
{
}

/// A token id that was never assigned (zero, or above the counter) is
/// found by neither `get_badge` nor `owner_of`.
pub proof fn lemma_unassigned_id_not_found(s: BadgeNFT, token_id: u64)
    requires
        s.ids_sequential(),
        token_id == 0 || token_id > s.spec_counter(),
    ensures
        first_badge(s.spec_badges(), token_id) is None,
{
    lemma_first_badge_found_iff(s.spec_badges(), token_id);
}

/// On a consistent ledger whose token ids are distinct (as every sequence
/// of mints keeps them), `get_badges_by_owner` returns exactly the owner's
/// badges, in mint order.
pub proof fn lemma_badges_by_owner_exact(s: BadgeNFT, owner: Seq<char>)
    requires
        s.wf(),
        unique_ids(s.spec_badges()),
    ensures
        resolve_ids(s.spec_badges(), s.spec_owner_ids(owner)) == owned_badges(
            s.spec_badges(),
            owner,
        ),
{
    let badges = s.spec_badges();
    let ids = s.spec_owner_ids(owner);
    let owned = owned_badges(badges, owner);
    lemma_owned_correspond(badges, owner);
    assert forall|k: int| 0 <= k < ids.len() implies (#[trigger] first_badge(badges, ids[k]))
        == Some(owned[k]) by {
        let m = choose|m: int| 0 <= m < badges.len() && badges[m] == owned[k];
        lemma_first_badge_unique(badges, m);
        assert(badges[m].token_id == ids[k]);
    }
    lemma_resolve_elements(badges, ids);
    assert(resolve_ids(badges, ids) =~= owned);
}

/// `has_badge_for_test` answers exactly "some badge of this owner carries
/// this test id": false before any such mint, true from the moment of one
/// on (mints only ever add badges).
pub proof fn lemma_has_badge_for_test_exact(s: BadgeNFT, owner: Seq<char>, test_id: Seq<char>)
    requires
        s.wf(),
        unique_ids(s.spec_badges()),
    ensures
        seq_has_test(resolve_ids(s.spec_badges(), s.spec_owner_ids(owner)), test_id)
            <==> has_badge(s.spec_badges(), owner, test_id),
{
    lemma_badges_by_owner_exact(s, owner);
    lemma_owned_correspond(s.spec_badges(), owner);
    let owned = owned_badges(s.spec_badges(), owner);
    if seq_has_test(owned, test_id) {
        let k = choose|k: int| 0 <= k < owned.len() && owned[k].test_id == test_id;
        let m = choose|m: int| 0 <= m < s.spec_badges().len() && s.spec_badges()[m] == owned[k];
        assert(s.spec_badges()[m].owner == owner && s.spec_badges()[m].test_id == test_id);
    }
    if has_badge(s.spec_badges(), owner, test_id) {
        let i = choose|i: int|
            0 <= i < s.spec_badges().len() && s.spec_badges()[i].owner == owner && s.spec_badges(
            )[i].test_id == test_id;
        lemma_owned_contains(s.spec_badges(), owner, i);
        let k = choose|k: int| 0 <= k < owned.len() && owned[k] == s.spec_badges()[i];
        assert(owned[k].test_id == test_id);
    }
}

/// A never-reset ledger has pairwise distinct token ids.
pub proof fn lemma_sequential_ids_unique(s: BadgeNFT)
    requires
        s.ids_sequential(),
    ensures
        unique_ids(s.spec_badges()),
{
}

/// First-match index lookup returns the entry at the first matching
/// position.
pub proof fn lemma_lookup_first_match(entries: Seq<OwnerEntry>, j: int, owner: Seq<char>)
    requires
        0 <= j < entries.len(),
        entries[j].owner@ == owner,
        forall|i: int| 0 <= i < j ==> entries[i].owner@ != owner,
    ensures
        lookup_ids(entries, owner) == entries[j].token_ids@,
    decreases j,
{
    if j == 0 {
    } else {
        assert(entries[0].owner@ != owner);
        assert forall|i: int| 0 <= i < j - 1 implies entries.drop_first()[i].owner@ != owner by {
            assert(entries[i + 1].owner@ != owner);
        }
        lemma_lookup_first_match(entries.drop_first(), j - 1, owner);
    }
}

/// An owner matching no entry reads as an empty entry.
pub proof fn lemma_lookup_no_match(entries: Seq<OwnerEntry>, owner: Seq<char>)
    requires
        forall|i: int| 0 <= i < entries.len() ==> entries[i].owner@ != owner,
    ensures
        lookup_ids(entries, owner) == Seq::<u64>::empty(),
    decreases entries.len(),
{
    if entries.len() == 0 {
    } else {
        assert forall|i: int|
            0 <= i < entries.drop_first().len() implies entries.drop_first()[i].owner@
            != owner by {
            assert(entries[i + 1].owner@ != owner);
        }
        lemma_lookup_no_match(entries.drop_first(), owner);
    }
}

/// Replacing one entry's id list, keeping its owner, leaves the lookup of
/// any other owner unchanged.
pub proof fn lemma_lookup_same_entries(
    entries: Seq<OwnerEntry>,
    updated: Seq<OwnerEntry>,
    j: int,
    o: Seq<char>,
)
    requires
        0 <= j < entries.len(),
        updated.len() == entries.len(),
        updated[j].owner@ == entries[j].owner@,
        forall|i: int| 0 <= i < entries.len() && i != j ==> updated[i] == entries[i],
        o != entries[j].owner@,
    ensures
        lookup_ids(updated, o) == lookup_ids(entries, o),
    decreases entries.len(),
{
    if j == 0 {
        assert(updated[0].owner@ != o);
        assert(entries[0].owner@ != o);
        assert(updated.drop_first() =~= entries.drop_first());
    } else {
        assert(updated[0] == entries[0]);
        if entries[0].owner@ != o {
            assert forall|i: int|
                0 <= i < entries.drop_first().len() && i != j - 1
                    implies updated.drop_first()[i] == entries.drop_first()[i] by {
                assert(updated[i + 1] == entries[i + 1]);
            }
            assert(updated.drop_first()[j - 1] == updated[j]);
            assert(entries.drop_first()[j - 1] == entries[j]);
            lemma_lookup_same_entries(entries.drop_first(), updated.drop_first(), j - 1, o);
        }
    }
}

/// Appending an entry for one owner leaves the lookup of any other owner
/// unchanged.
pub proof fn lemma_lookup_push_other(entries: Seq<OwnerEntry>, entry: OwnerEntry, o: Seq<char>)
    requires
        o != entry.owner@,
    ensures
        lookup_ids(entries.push(entry), o) == lookup_ids(entries, o),
    decreases entries.len(),
{
    if entries.len() == 0 {
        assert(entries.push(entry)[0] == entry);
        assert(entries.push(entry).drop_first() =~= Seq::<OwnerEntry>::empty());
        assert(lookup_ids(entries.push(entry).drop_first(), o) == Seq::<u64>::empty());
    } else {
        assert(entries.push(entry)[0] == entries[0]);
        if entries[0].owner@ != o {
            assert(entries.push(entry).drop_first() =~= entries.drop_first().push(entry));
            lemma_lookup_push_other(entries.drop_first(), entry, o);
        }
    }
}

} // verus!
