pub mod bracha_broadcast;
pub mod runs;
pub mod progress;
