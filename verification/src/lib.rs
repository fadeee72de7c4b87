//! Verified core of the lumit bridge: pixel helpers, thumbnail
//! downscaling, render cancellation, the media probe cache and the plain
//! decision rules behind the bridge's project, effect and selection ops.

pub mod beats;
pub mod cancel;
pub mod effects;
pub mod fxkeys;
pub mod ids;
pub mod items;
pub mod keybatch;
pub mod media;
pub mod pixels;
pub mod recovery;
pub mod selection;
pub mod text;
