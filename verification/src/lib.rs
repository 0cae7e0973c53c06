pub mod buffer;
pub mod cursor;
pub mod diff;
pub mod graphemes;
pub mod movement;
pub mod text;

pub use cursor::{Cursor, RectangleSelection};
pub use diff::{CompoundDiff, DeleteOperation, OpaqueDiff};
pub use graphemes::{ByteIndex, CharIndex, LineIndex, RopeExt, RopeGraphemes};
pub use movement::Direction;
pub mod rectangle_kill;
pub mod tree;
