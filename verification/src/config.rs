use vstd::prelude::*;

verus! {

/// Tuning parameters of the failure detector. The bind address doubles as
/// the local node's member key: the pair of its packed IPv4 number and port.
pub struct Config {
    /// Period of the ticker, in milliseconds.
    pub ping_interval_ms: u64,
    /// How many peers each tick pings.
    pub num_members_to_ping: u8,
    /// Capacity constant handed to new inter-arrival windows; at least 3.
    pub window_size: usize,
    /// Local bind address as (packed IPv4 number, port).
    pub addr: (u32, u16),
    /// Upper bound, in seconds, of the random delay applied to each tick.
    pub ticker_delay_secs: u8,
}

impl Config {
    /// A configuration is well formed when its window capacity meets the
    /// lower bound that inter-arrival windows demand.
    pub open spec fn wf(self) -> bool {
        self.window_size >= 3
    }

    /// The default configuration: ping once a second, ping three peers,
    /// window capacity ten, listen on 0.0.0.0:12345, no tick jitter.
    pub open spec fn spec_default() -> Config {
        Config {
            ping_interval_ms: 1000,
            num_members_to_ping: 3,
            window_size: 10,
            addr: (0u32, 12345u16),
            ticker_delay_secs: 0,
        }
    }

    /// The defaults: ping once a second, ping three peers, window capacity
    /// ten, listen on 0.0.0.0:12345, no tick jitter.
    pub fn default() -> (r: Config)
        ensures
            r == Config::spec_default(),
            r.wf(),
    {
        Config {
            ping_interval_ms: 1000,
            num_members_to_ping: 3,
            window_size: 10,
            addr: (0, 12345),
            ticker_delay_secs: 0,
        }
    }

    pub fn set_ping_interval(&mut self, interval_ms: u64)
        ensures
            *final(self) == (Config { ping_interval_ms: interval_ms, ..*old(self) }),
    {
        self.ping_interval_ms = interval_ms;
    }

    pub fn set_num_members_to_ping(&mut self, n: u8)
        ensures
            *final(self) == (Config { num_members_to_ping: n, ..*old(self) }),
    {
        self.num_members_to_ping = n;
    }

    pub fn set_addr(&mut self, addr: (u32, u16))
        ensures
            *final(self) == (Config { addr: addr, ..*old(self) }),
    {
        self.addr = addr;
    }

    pub fn set_window_size(&mut self, sz: usize)
        requires
            sz >= 3,
        ensures
            *final(self) == (Config { window_size: sz, ..*old(self) }),
    {
        self.window_size = sz;
    }

    pub fn set_ticker_delay(&mut self, secs: u8)
        ensures
            *final(self) == (Config { ticker_delay_secs: secs, ..*old(self) }),
    {
        self.ticker_delay_secs = secs;
    }
}

} // verus!
