//! Decoding of raw HID reports into input events and their dispatch to key actions.

pub mod action;
pub mod device;
pub mod device_definition;
pub mod device_input;
pub mod device_load;
pub mod device_manager;
pub mod device_mapping;
pub mod device_order;
pub mod error;
pub mod input;
pub mod level;
pub mod map_input;
pub mod profile_definition;
