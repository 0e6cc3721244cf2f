pub mod epoch;
pub mod extract;
pub mod reconcile;
pub mod text;
