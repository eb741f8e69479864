//! Named-radio filtering, scheduling and actuation logic.

pub mod actuator;
pub mod addressing;
pub mod bits;
pub mod clock;
pub mod control;
pub mod dbm_power;
pub mod factory;
pub mod gcs;
pub mod groups;
pub mod hash;
pub mod keyed;
pub mod medium;
pub mod name_gate;
pub mod octets;
pub mod rate;
pub mod sched;
pub mod sched_config;
pub mod text;
pub mod tier0;
pub mod tier1;
pub mod tlv;
pub mod tx;
pub mod wireless;
