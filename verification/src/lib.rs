//! `group_assignment`: a library for preference based group assignments,
//! with machine-checked contracts.
//!
//! Subjects rank groups by a dissatisfaction rating (lower is more
//! preferred); groups have a maximum occupancy. An assigner places every
//! subject into exactly one group without exceeding any group's capacity,
//! provided the combined capacity suffices.

mod assigners;
mod assignment;
mod errors;
mod first_come_first_served;
mod group_management;
mod group_metadata;
mod groups;
mod offers;
mod propose_and_reject;
mod proposals;
mod subjects;
mod summations;

pub use assigners::Assigner;
pub use assignment::Assignment;
pub use errors::CapacityError;
pub use first_come_first_served::FirstComeFirstServed;
pub use group_management::SimpleGroupRegistry;
pub use group_metadata::GroupMetaData;
pub use offers::MembershipOffer;
pub use offers::TransferralOffer;
pub use proposals::ProposalHandlingGroupRegistry;
pub use propose_and_reject::ProposeAndReject;

pub use errors::TotalCapacityError;
pub use groups::DefaultGroup;
pub use groups::Group;
pub use groups::TestGroup;
pub use subjects::DefaultSubject;
pub use subjects::Subject;
pub use subjects::TestSubject;
