pub mod cachedfile;
pub mod chunk_to_raw;
pub mod clock;
pub mod digest;
pub mod fsapi;
pub mod handlers;
pub mod laws;
pub mod fserror;
pub mod meta;
pub mod randid;
pub mod request_guards;
pub mod s3error;
pub mod s3resp;
pub mod sequencing;
pub mod states;
pub mod text;
pub mod urlenc;
