pub mod logic;
pub mod tableau;

pub use logic::Logic;
pub use tableau::PartialTableau;
