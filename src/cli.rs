//! Command-line options.

use vstd::prelude::*;
use vstd::string::StringExecFns;

verus! {

/// Options of the server: the address it binds, as `<IP>:<Port>`.
pub struct Opts {
    pub address: String,
}

impl Default for Opts {
    /// Binds every interface on port 8888.
    fn default() -> (r: Opts)
        ensures
            r.address@ == "0.0.0.0:8888"@,
    {
        Opts { address: String::from_str("0.0.0.0:8888") }
    }
}

} // verus!
