//! Planning of maintenance interventions over a horizon of days.
//!
//! Each intervention may start on any day up to its latest start, and then
//! runs during a period that depends on that day. Interventions excluded
//! with one another cannot run during the seasons of their exclusion. The
//! library holds the identifiers and periods, the seasons and exclusions,
//! the reading of the seasons, exclusions and periods of an instance, the
//! layout of the risk values, and the state of a search for a planning.
pub mod common;
pub mod exclusion;
pub mod intervention;
pub mod maintenance;
pub mod reader;
pub mod risks;
pub mod search;
pub mod seasons;
pub mod summary;
pub mod types;
pub mod utils;

pub use crate::common::{MaintenanceMapping, UnsafeFixArray, A};
pub use crate::exclusion::{intersect, InterventionExclusions};
pub use crate::intervention::{Intervention, InterventionBuilder};
pub use crate::maintenance::{Maintenance, MaintenanceBuilder, Resource};
pub use crate::reader::{list_of_seasons, SerdeDay, WorkingSeasons};
pub use crate::risks::{RiskBuilder, RiskBuilderStep2, RiskBuilderStep3, RiskBuilderStepFinal, Risks};
pub use crate::search::{Planning, SearchState};
pub use crate::seasons::Seasons;
pub use crate::summary::MaintenanceSummary;
pub use crate::types::{Day, Period, IID, PID, PRID, RID, SID};
pub use crate::utils::{add_vec_in_place, sub_vec_in_place};
