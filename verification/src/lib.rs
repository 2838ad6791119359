pub mod analyze_thread;
pub mod exception_log;
pub mod hci_log;
pub mod net_tool;
pub mod number;
pub mod speed_test;
pub mod text;
pub mod thread_switch;
pub mod utils;
pub mod wav_decoder;
