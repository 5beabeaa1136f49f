//! Git-shaped compatibility state over filesystem generations.

pub mod tree;
pub mod types;
pub mod capture;
pub mod capture_laws;
pub mod command_laws;
pub mod commit;
pub mod commit_laws;
pub mod argv;
pub mod argv_laws;
pub mod laws;
pub mod paths;
pub mod history;
pub mod ancestry;
pub mod sequencer;
pub mod bisect;
pub mod bisect_laws;
pub mod execute;
pub mod complete;
pub mod validate;
pub mod repository;
pub mod run;
pub mod run_laws;
pub mod state_laws;
pub mod store;
pub mod ignore;
pub mod ignore_laws;
pub mod inspect;
pub mod inspect_laws;
pub mod patch;
pub mod patch_laws;
pub mod patch_text_laws;
