//! A 90s cable box for a video folder: the rules of the set, apart from its windows, codecs and
//! disks. Channel schedules, the on-screen drawing, the remote control and the settings live here.

pub mod num;
pub mod text;
pub mod order;
pub mod paths;
pub mod library;
pub mod host;
pub mod settings;
pub mod networks;
pub mod schedule;
pub mod deal;
pub mod raster;
pub mod station;
pub mod tv;
pub mod remote;
pub mod idle;
pub mod pace;
pub mod start;
pub mod args;
pub mod loader;
pub mod draw;
pub mod screens;
pub mod guide;
pub mod dressing;
pub mod picture;
pub mod audio;
pub mod decode;
pub mod setup;
pub mod present;
pub mod stats;
pub mod deck;
pub mod overlay;
