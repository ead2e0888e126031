//! Test Catalog: an append-only list of test definitions.
//!
//! Records are appended in registration order and never changed or removed.
//! No uniqueness is enforced on `test_id`: a duplicate registration adds a
//! second record, and lookups return the earliest matching record.

use vstd::prelude::*;

verus! {

/// A registered test definition. All fields are immutable once stored.
pub struct TestMetadata {
    /// Caller-supplied identifier, intended (but not enforced) to be unique.
    pub test_id: String,
    /// Identity reference of the registering party; not authenticated here.
    pub creator: String,
    /// Opaque pointer to off-ledger metadata.
    pub metadata_cid: String,
    /// Timestamp assigned by the caller's clock at registration time.
    pub created_at: u64,
}

/// The mathematical value of a `TestMetadata`: its strings as
/// character sequences.
pub struct TestView {
    pub test_id: Seq<char>,
    pub creator: Seq<char>,
    pub metadata_cid: Seq<char>,
    pub created_at: u64,
}

impl View for TestMetadata {
    type V = TestView;

    open spec fn view(&self) -> TestView {
        TestView {
            test_id: self.test_id@,
            creator: self.creator@,
            metadata_cid: self.metadata_cid@,
            created_at: self.created_at,
        }
    }
}

impl Clone for TestMetadata {
    fn clone(&self) -> (r: Self)
        ensures
            r == *self,
    {
        TestMetadata {
            test_id: self.test_id.clone(),
            creator: self.creator.clone(),
            metadata_cid: self.metadata_cid.clone(),
            created_at: self.created_at,
        }
    }
}

/// The views of a sequence of stored records.
pub open spec fn views_of_tests(s: Seq<TestMetadata>) -> Seq<TestView> {
    s.map_values(|t: TestMetadata| t@)
}

/// The first record (scanning from the front, i.e. the earliest inserted)
/// whose `test_id` matches, if any.
pub open spec fn first_test(tests: Seq<TestView>, test_id: Seq<char>) -> Option<TestView>
    decreases tests.len(),
{
    if tests.len() == 0 {
        None
    } else if tests[0].test_id == test_id {
        Some(tests[0])
    } else {
        first_test(tests.drop_first(), test_id)
    }
}

/// Whether some record carries this `test_id`.
pub open spec fn has_test(tests: Seq<TestView>, test_id: Seq<char>) -> bool {
    exists|i: int| 0 <= i < tests.len() && tests[i].test_id == test_id
}

/// The Test Catalog: the primary list is the whole state.
pub struct TestRegistry {
    pub tests: Vec<TestMetadata>,
}

impl TestRegistry {
    /// The stored records as a sequence of views, in insertion order.
    pub open spec fn spec_tests(self) -> Seq<TestView> {
        views_of_tests(self.tests@)
    }

    /// An empty catalog: the state before any registration.
    pub fn new() -> (r: TestRegistry)
        ensures
            r.spec_tests() == Seq::<TestView>::empty(),
    {
        let r = TestRegistry { tests: Vec::new() };
        proof {
            assert(r.spec_tests() =~= Seq::<TestView>::empty());
        }
        r
    }

    /// Append a new record built from the inputs and return it.
    ///
    /// No authorization check and no uniqueness check: any caller may
    /// register on behalf of any `creator`, and a duplicate `test_id`
    /// simply appends a second record.
    pub fn register_test(
        &mut self,
        test_id: String,
        creator: String,
        metadata_cid: String,
        created_at: u64,
    ) -> (r: TestMetadata)
        ensures
            r@ == (TestView { test_id: test_id@, creator: creator@, metadata_cid: metadata_cid@, created_at }),
            final(self).spec_tests() == old(self).spec_tests().push(r@),
    {
        let record = TestMetadata { test_id, creator, metadata_cid, created_at };
        let returned = record.clone();
        self.tests.push(record);
        proof {
            assert(self.spec_tests() =~= old(self).spec_tests().push(returned@));
        }
        returned
    }

    /// Linear scan for the first record with this `test_id`; `None` if the
    /// catalog holds no such record.
    pub fn get_test(&self, test_id: &String) -> (r: Option<TestMetadata>)
        ensures
            (match r {
                Some(t) => first_test(self.spec_tests(), test_id@) == Some(t@),
                None => first_test(self.spec_tests(), test_id@) is None,
            }),
    {
        let n = self.tests.len();
        let mut i: usize = 0;
        proof {
            assert(self.spec_tests().skip(0) =~= self.spec_tests());
        }
        while i < n
            invariant
                n == self.tests.len(),
                i <= n,
                first_test(self.spec_tests(), test_id@) == first_test(
                    self.spec_tests().skip(i as int),
                    test_id@,
                ),
            decreases n - i,
        {
            if self.tests[i].test_id == *test_id {
                return Some(self.tests[i].clone());
            }
            proof {
                assert(self.spec_tests().skip(i as int).drop_first() =~= self.spec_tests().skip(
                    i as int + 1,
                ));
            }
            i = i + 1;
        }
        None
    }

    /// The full primary list in insertion order.
    pub fn list_tests(&self) -> (r: Vec<TestMetadata>)
        ensures
            views_of_tests(r@) == self.spec_tests(),
    {
        let n = self.tests.len();
        let mut out: Vec<TestMetadata> = Vec::new();
        let mut i: usize = 0;
        while i < n
            invariant
                n == self.tests.len(),
                i <= n,
                out@.len() == i,
                views_of_tests(out@) == self.spec_tests().take(i as int),
            decreases n - i,
        {
            let ghost prev = out@;
            out.push(self.tests[i].clone());
            proof {
                assert(out@.len() == i + 1);
                assert(out@[i as int] == self.tests@[i as int]);
                assert forall|j: int| 0 <= j < i + 1 implies views_of_tests(out@)[j]
                    == self.spec_tests()[j] by {
                    assert(views_of_tests(out@)[j] == out@[j]@);
                    if j < i {
                        assert(out@[j] == prev[j]);
                        assert(views_of_tests(prev)[j] == self.spec_tests().take(i as int)[j]);
                    }
                }
                assert(views_of_tests(out@) =~= self.spec_tests().take(i as int + 1));
            }
            i = i + 1;
        }
        proof {
            assert(self.spec_tests().take(n as int) =~= self.spec_tests());
        }
        out
    }

    /// Size of the primary list.
    pub fn get_test_count(&self) -> (r: u64)
        ensures
            r as nat == self.spec_tests().len(),
    {
        self.tests.len() as u64
    }

    /// Whether `get_test` would find a record.
    pub fn test_exists(&self, test_id: &String) -> (r: bool)
        ensures
            r == has_test(self.spec_tests(), test_id@),
    {
        let n = self.tests.len();
        let mut i: usize = 0;
        while i < n
            invariant
                n == self.tests.len(),
                i <= n,
                forall|k: int| 0 <= k < i ==> self.spec_tests()[k].test_id != test_id@,
            decreases n - i,
        {
            if self.tests[i].test_id == *test_id {
                proof {
                    assert(self.spec_tests()[i as int].test_id == test_id@);
                }
                return true;
            }
            i = i + 1;
        }
        false
    }
}

/// `test_exists` answers exactly whether a scan for the id would find a
/// record: the first-match lookup succeeds if and only if some record
/// carries the id.
pub proof fn lemma_first_test_found_iff(tests: Seq<TestView>, test_id: Seq<char>)
    ensures
        (first_test(tests, test_id) is Some) <==> has_test(tests, test_id),
    decreases tests.len(),
{
    if tests.len() == 0 {
    } else if tests[0].test_id == test_id {
        assert(has_test(tests, test_id));
    } else {
        lemma_first_test_found_iff(tests.drop_first(), test_id);
        if has_test(tests.drop_first(), test_id) {
            let i = choose|i: int|
                0 <= i < tests.drop_first().len() && tests.drop_first()[i].test_id == test_id;
            assert(tests[i + 1].test_id == test_id);
        }
        if has_test(tests, test_id) {
            let i = choose|i: int| 0 <= i < tests.len() && tests[i].test_id == test_id;
            assert(tests.drop_first()[i - 1].test_id == test_id);
        }
    }
}

/// Registering a fresh `test_id` and then looking it up returns exactly the
/// record just registered. (With an already-present `test_id` the lookup
/// instead returns the earlier record: the scan takes the first match.)
pub proof fn lemma_register_then_get(tests: Seq<TestView>, record: TestView)
    requires
        !has_test(tests, record.test_id),
    ensures
        first_test(tests.push(record), record.test_id) == Some(record),
    decreases tests.len(),
{
    if tests.len() == 0 {
        assert(tests.push(record)[0] == record);
    } else {
        assert(tests[0].test_id != record.test_id);
        assert(tests.push(record)[0] == tests[0]);
        assert(!has_test(tests.drop_first(), record.test_id)) by {
            if has_test(tests.drop_first(), record.test_id) {
                let i = choose|i: int|
                    0 <= i < tests.drop_first().len() && tests.drop_first()[i].test_id
                        == record.test_id;
                assert(tests[i + 1].test_id == record.test_id);
            }
        }
        lemma_register_then_get(tests.drop_first(), record);
        assert(tests.push(record).drop_first() =~= tests.drop_first().push(record));
    }
}

} // verus!
