use vstd::prelude::*;

verus! {

/// The bind address used when the configuration file names none.
pub fn default_bind() -> (r: String)
    ensures
        r@ == "127.0.0.1"@,
{
    String::from_str("127.0.0.1")
}

/// The port used when the configuration file names none.
pub fn default_port() -> (r: u16)
    ensures
        r == 6214,
{
    6214
}

} // verus!
