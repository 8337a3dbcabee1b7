//! A queryable code graph for Python.
pub mod cache;
pub mod callgraph;
pub mod canonical;
pub mod canonical_laws;
pub mod change_cov;
pub mod change_laws;
pub mod channel;
pub mod classify;
pub mod classify_laws;
pub mod cli;
pub mod closure_laws;
pub mod config;
pub mod copies;
pub mod deadcode;
pub mod describe;
pub mod dynamic;
pub mod effect_laws;
pub mod effects;
pub mod entry_laws;
pub mod extract;
pub mod fact_laws;
pub mod facts;
pub mod graph_laws;
pub mod graph_reports;
pub mod hierarchy;
pub mod import_laws;
pub mod import_report;
pub mod imports;
pub mod json;
pub mod json_laws;
pub mod last_def;
pub mod lines;
pub mod live_laws;
pub mod lookup;
pub mod lookup_laws;
pub mod mock;
pub mod mock_laws;
pub mod model;
pub mod name_laws;
pub mod names;
pub mod order_laws;
pub mod output;
pub mod output_laws;
pub mod parse_json;
pub mod place_laws;
pub mod reach_laws;
pub mod recording;
pub mod report_laws;
pub mod resolve;
pub mod rows;
pub mod scc;
pub mod sort;
pub mod structure_reports;
pub mod surface_laws;
pub mod surface_reports;
pub mod symbol_reports;
pub mod syntax;
pub mod table;
pub mod test_laws;
pub mod tests_map;
pub mod text;
pub mod text_laws;
pub mod upgrade;
pub mod upgrade_laws;
pub mod walk;
