// Energy-weighted reward distribution over fixed-length periods ("weeks"):
// - `week_clock` maps the external epoch counter to week indices;
// - `fees_accumulation` collects deposits per week and hands each week over once;
// - `weekly_rewards` freezes each week's totals on first use and computes a
//   participant's floored pro-rata share of them;
// - `claim_progress` records how far each participant has been settled;
// - `splitter` settles a participant over every closed, unsettled week;
// - `boosted_yields` pays an energy-boosted reward out of a pre-funded reserve;
// - `metabonding` stakes locked assets with a delayed unbond;
// - `contexts` holds the interfaces of a pair action's working state.
pub mod boosted_yields;
pub mod claim_progress;
pub mod contexts;
pub mod fees_accumulation;
pub mod metabonding;
pub mod splitter;
pub mod types;
pub mod week_clock;
pub mod weekly_rewards;
