//! Verified logic of the pixdr software-defined radio.

pub mod android_uhd_context;
pub mod bcch;
pub mod bcch_search;
pub mod bits;
pub mod distance;
pub mod firmware;
pub mod futuresdr_backend;
pub mod gsm;
pub mod ihex;
pub mod interleave;
pub mod parity;
pub mod ranking;
pub mod sch;
pub mod sch_dump;
pub mod sch_search;
pub mod soft;
pub mod soft_decoding;
pub mod spectrum;
pub mod symbols;
pub mod text;
pub mod training;
pub mod tx_image;
pub mod uhd_wrapper;
pub mod ui_state;
pub mod usb;
pub mod viterbi;
pub mod worker;
