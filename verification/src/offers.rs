//! Offers assisting proposal handling registries in proposing transferral
//! of subjects.

use core::cmp::Ordering;
use vstd::prelude::*;

verus! {

/// An offer provided after a subject proposes to be a member of a given
/// group.
///
/// Offers are ordered lexicographically: primarily by the dissatisfaction
/// rating ascending (a lower rating is a better offer), and for equal
/// ratings by the dissatisfaction improvement ascending, where no
/// improvement (no eviction) sorts before any improvement, and among
/// evicting offers the more negative improvement sorts first.
#[derive(Debug, Eq)]
pub struct MembershipOffer {
    // How dissatisfied the subject would be with the proposed group. Needs
    // to be recorded in order for membership offers to be compared.
    dissatisfaction_rating: i32,
    // None if no one has to leave the group upon offer acceptance.
    // Otherwise the subject's dissatisfaction rating minus the highest
    // dissatisfaction rating among the group's current members, a negative
    // value.
    dissatisfaction_improvement: Option<i64>,
}

impl MembershipOffer {
    /// The offer's dissatisfaction rating, as a mathematical value.
    pub closed spec fn spec_rating(&self) -> i32 {
        self.dissatisfaction_rating
    }

    /// The offer's dissatisfaction improvement, as a mathematical value:
    /// `None` when nobody would be evicted.
    pub closed spec fn spec_improvement(&self) -> Option<i64> {
        self.dissatisfaction_improvement
    }

    /// The order on membership offers: rating first, then improvement,
    /// with `None` before `Some` and improvements by their numeric order.
    pub open spec fn spec_cmp(&self, other: &MembershipOffer) -> Ordering {
        if self.spec_rating() < other.spec_rating() {
            Ordering::Less
        } else if self.spec_rating() > other.spec_rating() {
            Ordering::Greater
        } else {
            match (self.spec_improvement(), other.spec_improvement()) {
                (Option::None, Option::None) => Ordering::Equal,
                (Option::None, Option::Some(_)) => Ordering::Less,
                (Option::Some(_), Option::None) => Ordering::Greater,
                (Option::Some(x), Option::Some(y)) => if x < y {
                    Ordering::Less
                } else if x > y {
                    Ordering::Greater
                } else {
                    Ordering::Equal
                },
            }
        }
    }

    /// Constructor. If an improvement is provided it is expected to be
    /// negative, recording that the group's currently most dissatisfied
    /// member would be evicted in favor of a happier candidate.
    pub fn new(dissatisfaction_rating: i32, dissatisfaction_improvement: Option<i64>) -> (r:
        MembershipOffer)
        ensures
            r.spec_rating() == dissatisfaction_rating,
            r.spec_improvement() == dissatisfaction_improvement,
    {
        MembershipOffer { dissatisfaction_rating, dissatisfaction_improvement }
    }
}

impl PartialEq for MembershipOffer {
    /// Two membership offers are equal when neither orders below the
    /// other.
    fn eq(&self, other: &MembershipOffer) -> (r: bool) {
        self.dissatisfaction_rating == other.dissatisfaction_rating && match (
        self.dissatisfaction_improvement,
        other.dissatisfaction_improvement,
        ) {
            (Option::None, Option::None) => true,
            (Option::Some(x), Option::Some(y)) => x == y,
            _ => false,
        }
    }
}

impl vstd::std_specs::cmp::PartialEqSpecImpl for MembershipOffer {
    open spec fn obeys_eq_spec() -> bool {
        true
    }

    open spec fn eq_spec(&self, other: &MembershipOffer) -> bool {
        self.spec_cmp(other) == Ordering::Equal
    }
}

impl PartialOrd for MembershipOffer {
    /// Membership offers are totally ordered by `spec_cmp`.
    fn partial_cmp(&self, other: &MembershipOffer) -> (r: Option<Ordering>) {
        if self.dissatisfaction_rating < other.dissatisfaction_rating {
            Some(Ordering::Less)
        } else if self.dissatisfaction_rating > other.dissatisfaction_rating {
            Some(Ordering::Greater)
        } else {
            match (self.dissatisfaction_improvement, other.dissatisfaction_improvement) {
                (Option::None, Option::None) => Some(Ordering::Equal),
                (Option::None, Option::Some(_)) => Some(Ordering::Less),
                (Option::Some(_), Option::None) => Some(Ordering::Greater),
                (Option::Some(x), Option::Some(y)) => if x < y {
                    Some(Ordering::Less)
                } else if x > y {
                    Some(Ordering::Greater)
                } else {
                    Some(Ordering::Equal)
                },
            }
        }
    }
}

impl vstd::std_specs::cmp::PartialOrdSpecImpl for MembershipOffer {
    open spec fn obeys_partial_cmp_spec() -> bool {
        true
    }

    open spec fn partial_cmp_spec(&self, other: &MembershipOffer) -> Option<Ordering> {
        Some(self.spec_cmp(other))
    }
}

/// A no-eviction offer always compares as strictly better (smaller) than
/// an offer that would evict a member, at equal dissatisfaction rating.
pub proof fn lemma_no_eviction_offer_preferred(a: MembershipOffer, b: MembershipOffer)
    requires
        a.spec_rating() == b.spec_rating(),
        a.spec_improvement() is None,
        b.spec_improvement() is Some,
    ensures
        a.spec_cmp(&b) == Ordering::Less,
        b.spec_cmp(&a) == Ordering::Greater,
{
}

/// A transferral offer inherits the preference for no-eviction offers:
/// at equal dissatisfaction rating, the offer whose membership offer
/// evicts nobody is strictly better, whatever the lookup keys are.
pub proof fn lemma_no_eviction_transferral_preferred(a: TransferralOffer, b: TransferralOffer)
    requires
        a.spec_membership_offer().spec_rating() == b.spec_membership_offer().spec_rating(),
        a.spec_membership_offer().spec_improvement() is None,
        b.spec_membership_offer().spec_improvement() is Some,
    ensures
        a.spec_cmp(&b) == Ordering::Less,
        b.spec_cmp(&a) == Ordering::Greater,
{
}

/// An offer proposing to transfer a specific member of one group to
/// another group: a lookup key identifying the member within the donor
/// group's member sequence, paired with the membership offer that the
/// receiving group extended for that member.
#[derive(Debug, Eq)]
pub struct TransferralOffer {
    subject_lookup_key: usize,
    membership_offer: MembershipOffer,
}

impl TransferralOffer {
    /// The position of the member to be transferred within the donor
    /// group's member sequence, as a mathematical value.
    pub closed spec fn spec_subject_lookup_key(&self) -> usize {
        self.subject_lookup_key
    }

    /// The embedded membership offer, as a mathematical value.
    pub closed spec fn spec_membership_offer(&self) -> MembershipOffer {
        self.membership_offer
    }

    /// Transferral offers are ordered by their membership offers alone;
    /// the lookup key does not take part.
    pub open spec fn spec_cmp(&self, other: &TransferralOffer) -> Ordering {
        self.spec_membership_offer().spec_cmp(&other.spec_membership_offer())
    }

    /// Constructor.
    pub fn new(subject_lookup_key: usize, membership_offer: MembershipOffer) -> (r:
        TransferralOffer)
        ensures
            r.spec_subject_lookup_key() == subject_lookup_key,
            r.spec_membership_offer() == membership_offer,
    {
        TransferralOffer { subject_lookup_key, membership_offer }
    }

    /// Whether accepting this offer requires the receiving group to first
    /// discard its least happy member.
    pub fn replace_least_happy_member_upon_transferral(&self) -> (r: bool)
        ensures
            r == (self.spec_membership_offer().spec_improvement() is Some),
    {
        self.membership_offer.dissatisfaction_improvement.is_some()
    }

    /// The position of the member to be transferred within the donor
    /// group's member sequence.
    pub fn subject_lookup_key(&self) -> (r: usize)
        ensures
            r == self.spec_subject_lookup_key(),
    {
        self.subject_lookup_key
    }
}

impl PartialEq for TransferralOffer {
    /// Two transferral offers are equal when their membership offers are;
    /// the lookup keys are not compared.
    fn eq(&self, other: &TransferralOffer) -> (r: bool) {
        self.membership_offer.eq(&other.membership_offer)
    }
}

impl vstd::std_specs::cmp::PartialEqSpecImpl for TransferralOffer {
    open spec fn obeys_eq_spec() -> bool {
        true
    }

    open spec fn eq_spec(&self, other: &TransferralOffer) -> bool {
        self.spec_cmp(other) == Ordering::Equal
    }
}

impl PartialOrd for TransferralOffer {
    /// Transferral offers are ordered by their membership offers alone.
    fn partial_cmp(&self, other: &TransferralOffer) -> (r: Option<Ordering>) {
        self.membership_offer.partial_cmp(&other.membership_offer)
    }
}

impl vstd::std_specs::cmp::PartialOrdSpecImpl for TransferralOffer {
    open spec fn obeys_partial_cmp_spec() -> bool {
        true
    }

    open spec fn partial_cmp_spec(&self, other: &TransferralOffer) -> Option<Ordering> {
        Some(self.spec_cmp(other))
    }
}

} // verus!
