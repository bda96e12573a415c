//! Input pipeline for a small USB HID keyboard: raw matrix samples are
//! debounced into key events, resolved through a layered keymap into
//! keycodes, and packed into fixed-layout HID boot-protocol reports, while a
//! link supervisor gates transmission on the USB suspend state.

pub mod debounce;
pub mod layout;
pub mod link;
pub mod pipeline;
pub mod report;
