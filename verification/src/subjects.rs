//! The subject trait and two plain subject types.

use std::collections::HashMap;
use vstd::prelude::*;

verus! {

broadcast use vstd::std_specs::hash::group_hash_axioms;

/// The subjects to be placed in groups must implement this trait.
///
/// The two specification functions fix the mathematical meaning of the two
/// executable methods: every implementation must return exactly the value
/// of its specification function, so the assignment algorithms may reason
/// about ids and dissatisfaction ratings as pure values.
pub trait Subject: Sized {
    /// The subject's dissatisfaction toward the given group, as a
    /// mathematical value.
    spec fn spec_dissatisfaction(&self, group_id: u64) -> i32;

    /// The subject's id as a mathematical value.
    spec fn spec_id(&self) -> u64;

    /// A measure for how displeased the subject will be after being
    /// assigned to the corresponding group. Lower is more preferred.
    fn dissatisfaction(&self, group_id: &u64) -> (r: i32)
        ensures
            r == self.spec_dissatisfaction(*group_id),
    ;

    /// Id used to identify the subject. Every binding to a type that
    /// implements the subject trait is expected to have a unique id.
    ///
    /// The images of this map and the equally named function of the group
    /// trait are not required to be disjoint.
    fn id(&self) -> (r: u64)
        ensures
            r == self.spec_id(),
    ;
}

/// A simple subject type: preferences are an explicit map from group id to
/// dissatisfaction rating; any group missing from the map gets the default
/// rating.
pub struct DefaultSubject {
    id: u64,
    preferences: HashMap<u64, i32>,
    default_dissatisfaction: i32,
}

impl DefaultSubject {
    /// Constructor.
    pub fn new(id: u64, preferences: HashMap<u64, i32>, default_dissatisfaction: i32) -> (r: Self)
        ensures
            r.spec_id() == id,
            forall|g: u64|
                r.spec_dissatisfaction(g) == if preferences@.contains_key(g) {
                    preferences@[g]
                } else {
                    default_dissatisfaction
                },
    {
        Self { id, preferences, default_dissatisfaction }
    }
}

impl Subject for DefaultSubject {
    closed spec fn spec_dissatisfaction(&self, group_id: u64) -> i32 {
        if self.preferences@.contains_key(group_id) {
            self.preferences@[group_id]
        } else {
            self.default_dissatisfaction
        }
    }

    closed spec fn spec_id(&self) -> u64 {
        self.id
    }

    fn dissatisfaction(&self, group_id: &u64) -> (r: i32) {
        match self.preferences.get(group_id) {
            Some(x) => *x,
            None => self.default_dissatisfaction,
        }
    }

    fn id(&self) -> (r: u64) {
        self.id
    }
}

/// The least index at which `group_id` occurs in `prefs`, or `prefs.len()`
/// when it does not occur. This is the dissatisfaction model of
/// [`TestSubject`]: the earlier a group is ranked, the happier the subject.
pub open spec fn preference_rank(prefs: Seq<u64>, group_id: u64) -> int
    decreases prefs.len(),
{
    if prefs.len() == 0 {
        0
    } else if prefs[0] == group_id {
        0
    } else {
        1 + preference_rank(prefs.drop_first(), group_id)
    }
}

/// `preference_rank` really is the least occurrence index, or the length
/// when the group does not occur.
pub proof fn lemma_preference_rank(prefs: Seq<u64>, group_id: u64)
    ensures
        0 <= preference_rank(prefs, group_id) <= prefs.len(),
        preference_rank(prefs, group_id) < prefs.len() ==> prefs[preference_rank(
            prefs,
            group_id,
        )] == group_id,
        forall|j: int| 0 <= j < preference_rank(prefs, group_id) ==> prefs[j] != group_id,
    decreases prefs.len(),
{
    if prefs.len() > 0 && prefs[0] != group_id {
        lemma_preference_rank(prefs.drop_first(), group_id);
        assert forall|j: int| 0 <= j < preference_rank(prefs, group_id) implies prefs[j]
            != group_id by {
            if j > 0 {
                assert(prefs[j] == prefs.drop_first()[j - 1]);
            }
        }
    }
}

/// A simple subject type whose preferences are an ordered list of group
/// ids, most preferred first: the dissatisfaction toward a group is its
/// position in the list, or the length of the list for a group that does
/// not appear.
pub struct TestSubject {
    id: u64,
    preferences: Vec<u64>,
}

impl TestSubject {
    #[verifier::type_invariant]
    spec fn type_inv(self) -> bool {
        self.preferences@.len() <= 0x7fff_ffff
    }

    /// Constructor. The preference list must leave its length expressible
    /// as a dissatisfaction rating.
    pub fn new(id: u64, preferences: Vec<u64>) -> (r: TestSubject)
        requires
            preferences@.len() <= 0x7fff_ffff,
        ensures
            r.spec_id() == id,
            forall|g: u64| r.spec_dissatisfaction(g) == preference_rank(preferences@, g) as i32,
    {
        TestSubject { id, preferences }
    }
}

impl Subject for TestSubject {
    closed spec fn spec_dissatisfaction(&self, group_id: u64) -> i32 {
        preference_rank(self.preferences@, group_id) as i32
    }

    closed spec fn spec_id(&self) -> u64 {
        self.id
    }

    fn dissatisfaction(&self, group_id: &u64) -> (r: i32) {
        proof {
            use_type_invariant(self);
            lemma_preference_rank(self.preferences@, *group_id);
        }
        let n = self.preferences.len();
        let mut i: usize = 0;
        while i < n
            invariant
                n == self.preferences@.len() <= 0x7fff_ffff,
                0 <= i <= n,
                forall|j: int| 0 <= j < i ==> self.preferences@[j] != *group_id,
                preference_rank(self.preferences@, *group_id) >= i,
            decreases n - i,
        {
            if self.preferences[i] == *group_id {
                proof {
                    lemma_preference_rank(self.preferences@, *group_id);
                }
                return i as i32;
            }
            proof {
                lemma_preference_rank(self.preferences@, *group_id);
            }
            i = i + 1;
        }
        n as i32
    }

    fn id(&self) -> (r: u64) {
        self.id
    }
}

} // verus!
