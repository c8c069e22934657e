pub mod point;
pub mod measure;
pub mod wfg;
pub mod par;
pub mod hypervolume_random;
pub mod hypervolume_worst_case;
pub mod rng;
pub mod input;
