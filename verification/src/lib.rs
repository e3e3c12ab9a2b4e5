//! evogait: the integer core of a deterministic QWOP-style biped trainer.

pub mod args;
pub mod evolve;
pub mod gaitfile;
pub mod keylist;
pub mod keys;
pub mod policyfile;
pub mod rng;
pub mod runner;
pub mod text;
