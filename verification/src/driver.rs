//! Drivers that time the WS2812B pulses with a hardware timer.
pub mod gpio;
