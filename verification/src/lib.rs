//! Verified core of a system-audio spectrum visualizer: how FFT bins are
//! grouped into bands, how the sample stream is cut into analysis frames, what
//! becomes of each captured audio buffer, how the display is laid out and
//! drawn, and what the window's event loop does with each event.
pub mod bands;
pub mod capture;
pub mod event_loop;
pub mod framing;
pub mod renderer;
