//! An inventory of the ringtones and alert tones stored on a device, with a
//! stable identity for every sound file and a field-by-field comparison of
//! two inventories.

pub mod data;
pub mod identity;
pub mod list_tones;
pub mod order;
pub mod paths;
pub mod report;
pub mod ringtones_plist;
pub mod seconds;
pub mod text;
