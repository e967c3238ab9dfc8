use vstd::prelude::*;

mod args;
mod error;
pub mod laws;
mod output;
pub mod playlist;
pub mod resolve;
pub mod text;
pub mod token;

pub use args::{get_channel_name, spec_channel_name, Args};
pub use error::Error;
pub use output::{spec_output, Item, Output};
pub use playlist::{parse, parse_with_warnings, Stream};
pub use resolve::{order, select, Quality};

verus! {

/// A handle for talking to the streaming platform: it carries the
/// client identifier that every request must present.
pub struct Client {
    pub client_id: String,
}

impl Client {
    pub fn new(id: String) -> (r: Self)
        ensures
            r.client_id == id,
    {
        Client { client_id: id }
    }
}

} // verus!
