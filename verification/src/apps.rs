pub mod reader_state;
