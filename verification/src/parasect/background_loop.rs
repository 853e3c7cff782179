pub use crate::threading::background_loop::BackgroundLoopBehavior;
