//! A hierarchical rectangle-layout engine.
//!
//! The library tracks nested window regions inside a fixed-size parent
//! area.  Children are anchored to a parent's top-left corner, bottom-right
//! corner, or center, sized either absolutely or as a percentage of the
//! parent's extent.  Regions can be added and removed at runtime, and
//! geometry queries (`size`, `corners`, `contains`) are proved consistent
//! with the layout rules.

pub mod utils;
pub mod window;

pub use window::perc;
pub use window::read_lock;
pub use window::share;
pub use window::write_lock;
pub use window::Extent;
pub use window::Percentage;
pub use window::ScaleInto;
pub use window::TreeLockPred;
pub use window::Window;
pub use window::WindowError;
pub use window::WindowId;
