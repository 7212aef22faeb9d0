//! The server object that owns the routes shared by every connection.

use vstd::prelude::*;
use crate::router::Route;

verus! {

/// Routes and the size of the worker pool that serves them.
pub struct HttpServer {
    pub pool_size: usize,
    pub router: Route,
}

impl HttpServer {
    /// A server with `pool_size` workers and no routes.
    pub fn new(pool_size: usize) -> (r: HttpServer)
        ensures
            r.pool_size == pool_size,
            r.router.wf(),
            r.router.tables().len() == 0,
    {
        HttpServer { pool_size, router: Route::new() }
    }

    /// Replaces the routes.
    pub fn use_router(&mut self, router: Route)
        ensures
            final(self).router == router,
            final(self).pool_size == old(self).pool_size,
    {
        self.router = router;
    }

    /// The routes, for the connections to resolve against.
    pub fn router(&self) -> (r: &Route)
        ensures
            *r == self.router,
    {
        &self.router
    }
}

} // verus!
