//! Error taxonomy shared by the managers of this crate.

use vstd::prelude::*;

verus! {

/// Every failure a manager can report to its caller.
#[derive(Clone, Copy, Debug, PartialEq, Eq, Structural)]
pub enum CoreError {
    /// No address range is registered for the requested country code.
    InvalidCountry,
    /// The set of eligible proxy candidates is empty.
    NoAvailableProxy,
    /// The tab id is not known to the tab manager.
    TabNotFound,
    /// The durable row store reported an I/O failure.
    PersistenceError,
    /// A proxy-list provider could not be fetched or parsed.
    ProviderFetchError,
    /// An outbound probe through a proxy hit its deadline.
    ProxyTestTimeout,
    /// An outbound probe through a proxy failed outright.
    ProxyTestFailure,
}

impl CoreError {
    /// A short stable label for display and logging.
    pub fn label(&self) -> (r: &'static str)
        ensures
            r@ == self.label_spec(),
    {
        match self {
            CoreError::InvalidCountry => "invalid country",
            CoreError::NoAvailableProxy => "no available proxy",
            CoreError::TabNotFound => "tab not found",
            CoreError::PersistenceError => "persistence error",
            CoreError::ProviderFetchError => "provider fetch error",
            CoreError::ProxyTestTimeout => "proxy test timeout",
            CoreError::ProxyTestFailure => "proxy test failure",
        }
    }

    pub open spec fn label_spec(self) -> Seq<char> {
        match self {
            CoreError::InvalidCountry => "invalid country"@,
            CoreError::NoAvailableProxy => "no available proxy"@,
            CoreError::TabNotFound => "tab not found"@,
            CoreError::PersistenceError => "persistence error"@,
            CoreError::ProviderFetchError => "provider fetch error"@,
            CoreError::ProxyTestTimeout => "proxy test timeout"@,
            CoreError::ProxyTestFailure => "proxy test failure"@,
        }
    }
}

} // verus!
