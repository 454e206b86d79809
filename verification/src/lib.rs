//! Code-ownership reporting for a source tree: who wrote how many of the
//! lines that are there today, by contributor and by team.
//!
//! The crate resolves the many e-mail addresses of a contributor to one
//! [`Person`], counts attributed lines per person and per team, walks a
//! content tree in pre-order, and ranks the result. Every function here is
//! verified against its contract.

pub mod calculation;
pub mod configuration;
pub mod errors;
pub mod git;
pub mod ownership;
pub mod person;
pub mod ranking;
pub mod text;
pub mod tracking;
pub mod tree_walker;

pub use calculation::{Action, Calculation, Event, Hunk};
pub use configuration::{Configuration, ConfigurationBuilder};
pub use errors::Error;
pub use ownership::{ComputedOwnership, OwnershipScore, OwnershipStatistics};
pub use person::{Email, PeopleDatabase, Person};
pub use tracking::{CombinedTracking, PeopleTracking, TeamTracking, TeamTrackingIter};
pub use tree_walker::{Entry, EntryKind, Tree, TreeNode, TreeWalker};
