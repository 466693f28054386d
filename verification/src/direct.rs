//! A packet source of the proxy that redirects without a helper process.

use vstd::prelude::*;

verus! {

/// The packet source.
#[derive(Debug, Clone, Copy, PartialEq, Eq, Structural)]
pub struct WindowsDirectConf;

impl WindowsDirectConf {
    /// The name of the packet source.
    pub fn name(&self) -> (name: &'static str)
        ensures
            name@ == "Windows Direct Proxy"@,
    {
        "Windows Direct Proxy"
    }
}

} // verus!
