//! Connection state for the tool-calling transport.
//!
//! The transport itself (line-based request reading, response writing) is
//! plain I/O and lives outside the library; what is kept here is the
//! per-connection state it threads through request handling.

use vstd::prelude::*;

verus! {

/// Per-connection server state: whether the peer has initialized.
pub struct McpServer {
    pub initialized: bool,
}

impl McpServer {
    /// A fresh, uninitialized connection.
    pub fn new() -> (s: Self)
        ensures
            !s.initialized,
    {
        McpServer { initialized: false }
    }

    /// Record that the peer has completed initialization.
    pub fn mark_initialized(&mut self)
        ensures
            final(self).initialized,
    {
        self.initialized = true;
    }
}

impl Default for McpServer {
    fn default() -> (s: Self)
        ensures
            !s.initialized,
    {
        McpServer::new()
    }
}

} // verus!
