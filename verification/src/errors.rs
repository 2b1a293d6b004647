use vstd::prelude::*;

verus! {

/// The failures that the cache core itself can produce. Transport and wire
/// format failures live outside the core and are not represented here.
#[derive(Debug)]
pub enum ServerError {
    /// The compression codec rejected its input; carries the codec's detail text.
    Compression(String),
    /// A lookup or deletion found no matching key; carries the detail text.
    KeyNotFound(String),
}

impl ServerError {
    /// The human-readable text that the wire adapter sends back for this failure.
    pub fn message(&self) -> (r: String)
        ensures
            match self {
                ServerError::Compression(d) => r@ == "Compression error: "@ + d@,
                ServerError::KeyNotFound(d) => r@ == "Key not found: "@ + d@,
            },
    {
        match self {
            ServerError::Compression(d) => {
                let mut s = String::from_str("Compression error: ");
                s.append(d.as_str());
                s
            },
            ServerError::KeyNotFound(d) => {
                let mut s = String::from_str("Key not found: ");
                s.append(d.as_str());
                s
            },
        }
    }
}

} // verus!
