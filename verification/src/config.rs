use vstd::prelude::*;

verus! {

/// A backend web server the balancer can route to: its IP address and port.
/// Immutable after load; a backend's identity is its position in the
/// configured `servers` list.
#[derive(Debug)]
pub struct Server {
    pub ip: String,
    pub port: u16,
}

impl Clone for Server {
    fn clone(&self) -> (res: Self)
        ensures
            res == *self,
    {
        Server { ip: self.ip.clone(), port: self.port }
    }
}

/// A load balancer's configuration. Read-only for the core; the surrounding
/// program loads it (for instance from a JSON file) and hands it over as a
/// plain value.
#[derive(Debug)]
pub struct Config {
    pub ip: String,
    pub port: u16,
    /// Seconds between two health-check rounds.
    pub active_health_check_interval: u64,
    /// URL path probed on each backend, e.g. `/healthcheck`.
    pub active_health_check_path: String,
    /// Length of one rate-limit window, in seconds.
    pub rate_limit_window_size: u64,
    /// Requests a single client may make within one window.
    pub max_requests_per_window: u64,
    /// The backend pool; must not be empty.
    pub servers: Vec<Server>,
}

impl Clone for Config {
    fn clone(&self) -> (res: Self)
        ensures
            res.ip == self.ip,
            res.port == self.port,
            res.active_health_check_interval == self.active_health_check_interval,
            res.active_health_check_path == self.active_health_check_path,
            res.rate_limit_window_size == self.rate_limit_window_size,
            res.max_requests_per_window == self.max_requests_per_window,
            res.servers@ == self.servers@,
    {
        let mut servers: Vec<Server> = Vec::new();
        let mut i: usize = 0;
        while i < self.servers.len()
            invariant
                0 <= i <= self.servers@.len(),
                servers@ =~= self.servers@.take(i as int),
            decreases self.servers@.len() - i,
        {
            servers.push(self.servers[i].clone());
            proof {
                assert(servers@ =~= self.servers@.take(i + 1));
            }
            i += 1;
        }
        proof {
            assert(servers@ =~= self.servers@);
        }
        Config {
            ip: self.ip.clone(),
            port: self.port,
            active_health_check_interval: self.active_health_check_interval,
            active_health_check_path: self.active_health_check_path.clone(),
            rate_limit_window_size: self.rate_limit_window_size,
            max_requests_per_window: self.max_requests_per_window,
            servers,
        }
    }
}

} // verus!
