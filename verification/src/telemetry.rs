use vstd::prelude::*;

verus! {

/// A point-in-time reading of host telemetry: computed fresh per request,
/// never stored and never persisted.
#[derive(Debug)]
pub struct SystemData {
    pub host_name: String,
    pub uptime: String,
    pub rx_bytes: u64,
    pub tx_bytes: u64,
}

/// Assembles the telemetry report from what the host reported: a missing
/// host name falls back to a placeholder, counters of a missing network
/// interface are reported as zero.
pub fn make_system_data(host_name: Option<String>, counters: Option<(u64, u64)>) -> (r: SystemData)
    ensures
        r.host_name@ == (match host_name {
            Some(h) => h@,
            None => "unknown"@,
        }),
        r.uptime@ == "2:15"@,
        (match counters {
            Some(c) => r.rx_bytes == c.0 && r.tx_bytes == c.1,
            None => r.rx_bytes == 0 && r.tx_bytes == 0,
        }),
{
    let host = match host_name {
        Some(h) => h,
        None => {
            let mut s = String::new();
            s.append("unknown");
            s
        },
    };
    let mut uptime = String::new();
    uptime.append("2:15");
    let (rx_bytes, tx_bytes) = match counters {
        Some(c) => c,
        None => (0u64, 0u64),
    };
    SystemData { host_name: host, uptime, rx_bytes, tx_bytes }
}

} // verus!
