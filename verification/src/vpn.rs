//! VPN status: the Mullvad and Proton VPN lines, the lookup of the Proton server
//! that owns the current exit address, and the age check of the cached server
//! list.
use vstd::prelude::*;
use crate::format::{distinct_keys, fill, format_output, pairs_view};

verus! {

/// One entry of Mullvad's blacklist check.
#[derive(Debug)]
pub struct Blacklist {
    pub name: String,
    pub link: String,
    pub blacklisted: bool,
}

/// Mullvad's blacklist check of the current address.
#[derive(Debug)]
pub struct Blacklisted {
    pub blacklisted: bool,
    pub results: Vec<Blacklist>,
}

/// One physical Proton VPN server.
#[allow(non_snake_case)]
#[derive(Debug)]
pub struct ConcreteServerData {
    pub entry_IP: String,
    pub exit_IP: String,
    pub domain: String,
    pub ID: String,
    pub label: String,
    pub x25519_public_key: Option<String>,
    pub generation: i32,
    pub status: i32,
    pub services_down: i32,
    pub services_down_reason: Option<String>,
}

/// A logical Proton VPN server: its name and the physical servers behind it.
#[derive(Debug)]
pub struct LogicalServer {
    pub name: String,
    pub servers: Vec<ConcreteServerData>,
}

/// Whether one of the physical servers of `server` exits at `ip`.
pub open spec fn serves_ip(server: LogicalServer, ip: Seq<char>) -> bool {
    exists|j: int| 0 <= j < server.servers@.len() && (#[trigger] server.servers@[j]).exit_IP@ == ip
}

/// The name of the first logical server, in the order given, that exits at `ip`.
pub open spec fn hostname_for(servers: Seq<LogicalServer>, ip: Seq<char>) -> Option<Seq<char>>
    decreases servers.len(),
{
    if servers.len() == 0 {
        None
    } else if serves_ip(servers[0], ip) {
        Some(servers[0].name@)
    } else {
        hostname_for(servers.drop_first(), ip)
    }
}

/// Every physical server is looked at: where any physical server of any logical
/// server exits at `ip`, the lookup finds a server.
pub proof fn lemma_hostname_found(servers: Seq<LogicalServer>, ip: Seq<char>, i: int, j: int)
    requires
        0 <= i < servers.len(),
        0 <= j < servers[i].servers@.len(),
        servers[i].servers@[j].exit_IP@ == ip,
    ensures
        hostname_for(servers, ip) is Some,
    decreases i,
{
    if i == 0 {
        assert(serves_ip(servers[0], ip));
    } else if !serves_ip(servers[0], ip) {
        assert(servers.drop_first()[i - 1] == servers[i]);
        lemma_hostname_found(servers.drop_first(), ip, i - 1, j);
    }
}

/// What the lookup finds is the name of a logical server that has a physical
/// server exiting at `ip`, and no logical server before it has one; where it
/// finds nothing, no physical server of any logical server exits at `ip`.
pub proof fn lemma_hostname_sound(servers: Seq<LogicalServer>, ip: Seq<char>)
    ensures
        hostname_for(servers, ip) matches Some(n) ==> exists|i: int, j: int|
            0 <= i < servers.len() && 0 <= j < servers[i].servers@.len()
                && #[trigger] servers[i].servers@[j].exit_IP@ == ip && servers[i].name@ == n
                && forall|k: int, l: int|
                0 <= k < i && 0 <= l < servers[k].servers@.len() ==> #[trigger] servers[k].servers@[l].exit_IP@
                    != ip,
        hostname_for(servers, ip) is None ==> forall|i: int, j: int|
            0 <= i < servers.len() && 0 <= j < servers[i].servers@.len()
                ==> #[trigger] servers[i].servers@[j].exit_IP@ != ip,
    decreases servers.len(),
{
    if servers.len() > 0 {
        let rest = servers.drop_first();
        lemma_hostname_sound(rest, ip);
        if serves_ip(servers[0], ip) {
            let j = choose|j: int| 0 <= j < servers[0].servers@.len() && (#[trigger] servers[0].servers@[j]).exit_IP@ == ip;
            assert(servers[0].servers@[j].exit_IP@ == ip);
        } else {
            assert forall|l: int| 0 <= l < servers[0].servers@.len() implies #[trigger] servers[0].servers@[l].exit_IP@
                != ip by {
                if servers[0].servers@[l].exit_IP@ == ip {
                    assert(serves_ip(servers[0], ip));
                }
            }
            match hostname_for(rest, ip) {
                Some(n) => {
                    let (i2, j2) = choose|i: int, j: int|
                        0 <= i < rest.len() && 0 <= j < rest[i].servers@.len()
                            && #[trigger] rest[i].servers@[j].exit_IP@ == ip && rest[i].name@ == n
                            && forall|k: int, l: int|
                            0 <= k < i && 0 <= l < rest[k].servers@.len() ==> #[trigger] rest[k].servers@[l].exit_IP@
                                != ip;
                    assert(servers[i2 + 1] == rest[i2]);
                    assert(servers[i2 + 1].servers@[j2].exit_IP@ == ip);
                    assert forall|k: int, l: int|
                        0 <= k < i2 + 1 && 0 <= l < servers[k].servers@.len() implies #[trigger] servers[k].servers@[l].exit_IP@
                            != ip by {
                        if k > 0 {
                            assert(servers[k] == rest[k - 1]);
                            assert(rest[k - 1].servers@[l].exit_IP@ != ip);
                        }
                    }
                },
                None => {
                    assert forall|i: int, j: int|
                        0 <= i < servers.len() && 0 <= j < servers[i].servers@.len() implies #[trigger] servers[i].servers@[j].exit_IP@
                            != ip by {
                        if i > 0 {
                            assert(servers[i] == rest[i - 1]);
                            assert(rest[i - 1].servers@[j].exit_IP@ != ip);
                        }
                    }
                },
            }
        }
    }
}

/// The name of the first logical server that has a physical server whose exit
/// address is `ip`.
pub fn find_hostname(ip: &String, servers: &Vec<LogicalServer>) -> (host: Option<String>)
    ensures
        crate::dirs::opt_view(host) == hostname_for(servers@, ip@),
{
    let n = servers.len();
    let mut i: usize = 0;
    assert(servers@.skip(0) == servers@);
    while i < n
        invariant
            n == servers@.len(),
            0 <= i <= n,
            hostname_for(servers@, ip@) == hostname_for(servers@.skip(i as int), ip@),
        decreases n - i,
    {
        let ghost rest = servers@.skip(i as int);
        assert(rest[0] == servers@[i as int]);
        assert(rest.drop_first() == servers@.skip(i + 1));
        let server = &servers[i];
        let m = server.servers.len();
        let mut j: usize = 0;
        while j < m
            invariant
                n == servers@.len(),
                0 <= i < n,
                *server == servers@[i as int],
                rest == servers@.skip(i as int),
                rest[0] == servers@[i as int],
                hostname_for(servers@, ip@) == hostname_for(rest, ip@),
                m == server.servers@.len(),
                0 <= j <= m,
                forall|k: int| 0 <= k < j ==> (#[trigger] server.servers@[k]).exit_IP@ != ip@,
            decreases m - j,
        {
            if ip.eq(&server.servers[j].exit_IP) {
                assert(serves_ip(*server, ip@));
                return Some(server.name.clone());
            }
            j = j + 1;
        }
        i = i + 1;
    }
    None
}

/// The Mullvad line: `format_up` with `%c` (the country) and `%h` (the exit
/// server) filled in while connected through Mullvad, else `format_down` with
/// `%c` filled in.
pub fn mullvad_line(
    country: String,
    exit_ip: bool,
    hostname: Option<String>,
    format_up: String,
    format_down: String,
) -> (line: String)
    requires
        exit_ip ==> hostname is Some,
    ensures
        line@ == if exit_ip {
            fill(format_up@, seq![("%c"@, country@), ("%h"@, hostname->0@)])
        } else {
            fill(format_down@, seq![("%c"@, country@)])
        },
{
    if exit_ip {
        let host = match hostname {
            Some(h) => h,
            None => String::new(),
        };
        let data = vec![("%c".to_owned(), country), ("%h".to_owned(), host)];
        proof {
            assert(pairs_view(data@) =~= seq![("%c"@, country@), ("%h"@, hostname->0@)]);
            reveal_strlit("%c");
            reveal_strlit("%h");
            let ps = pairs_view(data@);
            assert(ps[0].0[1] == 'c' && ps[1].0[1] == 'h');
            assert(distinct_keys(ps));
        }
        format_output(data, format_up)
    } else {
        let data = vec![("%c".to_owned(), country)];
        let r = format_output(data, format_down);
        assert(pairs_view(data@) =~= seq![("%c"@, country@)]);
        r
    }
}

/// The Proton VPN line: `format_up` with `%c` (the country) and `%h` (the
/// server) filled in where a server was found, else `format_down` with `%c`
/// filled in.
pub fn proton_line(
    country: String,
    hostname: Option<String>,
    format_up: String,
    format_down: String,
) -> (line: String)
    ensures
        line@ == match hostname {
            Some(h) => fill(format_up@, seq![("%c"@, country@), ("%h"@, h@)]),
            None => fill(format_down@, seq![("%c"@, country@)]),
        },
{
    match hostname {
        Some(h) => {
            let data = vec![("%c".to_owned(), country), ("%h".to_owned(), h)];
            proof {
                assert(pairs_view(data@) =~= seq![("%c"@, country@), ("%h"@, h@)]);
                reveal_strlit("%c");
                reveal_strlit("%h");
                let ps = pairs_view(data@);
                assert(ps[0].0[1] == 'c' && ps[1].0[1] == 'h');
                assert(distinct_keys(ps));
            }
            format_output(data, format_up)
        },
        None => {
            let data = vec![("%c".to_owned(), country)];
            let r = format_output(data, format_down);
            assert(pairs_view(data@) =~= seq![("%c"@, country@)]);
            r
        },
    }
}

/// Where the server list comes from.
#[derive(Debug, Clone, Copy, PartialEq, Eq, Structural)]
pub enum CacheAction {
    /// Download the list and cache it.
    Download,
    /// Use the cached list.
    UseCached,
}

/// Whether a list cached at `cached` is older than `expiry` seconds at `now`.
pub open spec fn is_stale(cached: u64, now: u64, expiry: u64) -> bool {
    now - cached > expiry
}

/// Where the server list comes from, given the timestamp of the cached list if
/// there is one.
pub open spec fn spec_cache_action(cached_timestamp: Option<u64>, now: u64, expiry: u64) -> CacheAction {
    match cached_timestamp {
        None => CacheAction::Download,
        Some(t) => if is_stale(t, now, expiry) {
            CacheAction::Download
        } else {
            CacheAction::UseCached
        },
    }
}

/// Decides where the server list comes from: without a cache, or with one
/// older than `expiry` seconds at `now`, it is downloaded; otherwise the cached
/// list is used. Timestamps are in seconds since the Unix epoch.
pub fn cache_action(cached_timestamp: Option<u64>, now: u64, expiry: u64) -> (a: CacheAction)
    requires
        cached_timestamp matches Some(t) ==> t <= now,
    ensures
        a == spec_cache_action(cached_timestamp, now, expiry),
{
    match cached_timestamp {
        None => CacheAction::Download,
        Some(t) => if now - t > expiry {
            CacheAction::Download
        } else {
            CacheAction::UseCached
        },
    }
}

/// Without a cache the list is downloaded; the list downloaded at `downloaded`
/// is cached with that timestamp, and a later run at `now`, no more than
/// `expiry` seconds on, uses the cached list and downloads nothing.
pub proof fn lemma_cache_reused_within_expiry(downloaded: u64, now: u64, expiry: u64)
    requires
        downloaded <= now,
        now - downloaded <= expiry,
    ensures
        spec_cache_action(None, downloaded, expiry) == CacheAction::Download,
        spec_cache_action(Some(downloaded), now, expiry) == CacheAction::UseCached,
{
}

/// A cache older than the expiry is not used: the list is downloaded again.
pub proof fn lemma_old_cache_replaced(cached: u64, now: u64, expiry: u64)
    requires
        cached <= now,
        now - cached > expiry,
    ensures
        spec_cache_action(Some(cached), now, expiry) == CacheAction::Download,
{
}

/// A cache that is stale stays stale as time goes on.
pub proof fn lemma_stale_stays_stale(cached: u64, now: u64, later: u64, expiry: u64)
    requires
        cached <= now <= later,
        is_stale(cached, now, expiry),
    ensures
        is_stale(cached, later, expiry),
{
}

} // verus!
