//! The rules of a port scanner: which ports are common, what service is
//! expected behind a port, how a list of ports is written, and how the
//! outcome of a connection attempt is recorded. Connecting is left to the
//! caller.

use vstd::prelude::*;
use std::collections::HashMap;
use crate::text::{
    char_is_whitespace, chars_of, find, find_char, index_value, is_whitespace, read_index,
};

verus! {

broadcast use vstd::std_specs::hash::group_hash_axioms;

/// What was found at one port.
#[derive(Debug, Clone, PartialEq, Eq)]
pub struct ScanResult {
    pub port: u16,
    pub is_open: bool,
    /// How long the connection took, in milliseconds; nothing where it
    /// failed.
    pub response_millis: Option<u64>,
    pub service: Option<String>,
}

/// The settings of a scan.
pub struct NetworkScanner {
    /// How long a connection attempt may take, in milliseconds.
    pub timeout_millis: u64,
    pub thread_count: usize,
    pub common_ports: Vec<u16>,
    pub port_services: HashMap<u16, String>,
}

/// The names of the services that are expected behind the common ports.
pub open spec fn known_services() -> Map<u16, Seq<char>> {
    Map::<u16, Seq<char>>::empty().insert(21, "FTP"@).insert(22, "SSH"@).insert(
        23,
        "Telnet"@,
    ).insert(25, "SMTP"@).insert(53, "DNS"@).insert(80, "HTTP"@).insert(110, "POP3"@).insert(
        143,
        "IMAP"@,
    ).insert(443, "HTTPS"@).insert(993, "IMAPS"@).insert(995, "POP3S"@).insert(
        3389,
        "RDP"@,
    ).insert(5432, "PostgreSQL"@).insert(3306, "MySQL"@).insert(1433, "MSSQL"@).insert(
        6379,
        "Redis"@,
    ).insert(27017, "MongoDB"@)
}

/// The ports that a quick scan looks at.
pub open spec fn known_ports() -> Seq<u16> {
    seq![21, 22, 23, 25, 53, 80, 110, 143, 443, 993, 995, 3389, 5432, 3306, 1433, 6379, 27017]
}

/// The names in a table of services, as characters.
pub open spec fn service_names(services: Map<u16, String>) -> Map<u16, Seq<char>> {
    Map::new(|port: u16| services.contains_key(port), |port: u16| services[port]@)
}

fn add_service(services: &mut HashMap<u16, String>, port: u16, name: &str)
    ensures
        service_names(final(services)@) == service_names(old(services)@).insert(port, name@),
{
    services.insert(port, name.to_owned());
    proof {
        assert(service_names(services@) =~= service_names(old(services)@).insert(port, name@));
    }
}

impl NetworkScanner {
    /// The default settings: a second per attempt, fifty threads, the
    /// common ports and the names of their services.
    pub fn new() -> (scanner: NetworkScanner)
        ensures
            scanner.timeout_millis == 1000,
            scanner.thread_count == 50,
            scanner.common_ports@ == known_ports(),
            service_names(scanner.port_services@) == known_services(),
    {
        let mut port_services: HashMap<u16, String> = HashMap::new();
        proof {
            assert(service_names(port_services@) =~= Map::<u16, Seq<char>>::empty());
        }
        add_service(&mut port_services, 21, "FTP");
        add_service(&mut port_services, 22, "SSH");
        add_service(&mut port_services, 23, "Telnet");
        add_service(&mut port_services, 25, "SMTP");
        add_service(&mut port_services, 53, "DNS");
        add_service(&mut port_services, 80, "HTTP");
        add_service(&mut port_services, 110, "POP3");
        add_service(&mut port_services, 143, "IMAP");
        add_service(&mut port_services, 443, "HTTPS");
        add_service(&mut port_services, 993, "IMAPS");
        add_service(&mut port_services, 995, "POP3S");
        add_service(&mut port_services, 3389, "RDP");
        add_service(&mut port_services, 5432, "PostgreSQL");
        add_service(&mut port_services, 3306, "MySQL");
        add_service(&mut port_services, 1433, "MSSQL");
        add_service(&mut port_services, 6379, "Redis");
        add_service(&mut port_services, 27017, "MongoDB");
        let common_ports: Vec<u16> = vec![
            21,
            22,
            23,
            25,
            53,
            80,
            110,
            143,
            443,
            993,
            995,
            3389,
            5432,
            3306,
            1433,
            6379,
            27017,
        ];
        proof {
            assert(common_ports@ =~= known_ports());
        }
        NetworkScanner { timeout_millis: 1000, thread_count: 50, common_ports, port_services }
    }

    /// The name of the service that is expected behind `port`, if one is
    /// known.
    pub fn service_name(&self, port: u16) -> (name: Option<String>)
        ensures
            match name {
                Some(text) => service_names(self.port_services@).contains_key(port) && text@
                    == service_names(self.port_services@)[port],
                None => !service_names(self.port_services@).contains_key(port),
            },
    {
        match self.port_services.get(&port) {
            Some(text) => Some(text.clone()),
            None => None,
        }
    }

    /// What is recorded of an attempt to connect to `port`: the port is
    /// open where the attempt gave a response time, and only an open port
    /// is given the name of its service.
    pub fn scan_result(&self, port: u16, response_millis: Option<u64>) -> (result: ScanResult)
        ensures
            result.port == port,
            result.is_open == response_millis.is_some(),
            result.response_millis == response_millis,
            match result.service {
                Some(text) => response_millis.is_some() && service_names(
                    self.port_services@,
                ).contains_key(port) && text@ == service_names(self.port_services@)[port],
                None => response_millis.is_none() || !service_names(
                    self.port_services@,
                ).contains_key(port),
            },
    {
        match response_millis {
            Some(millis) => ScanResult {
                port,
                is_open: true,
                response_millis: Some(millis),
                service: self.service_name(port),
            },
            None => ScanResult { port, is_open: false, response_millis: None, service: None },
        }
    }

    /// How many ports each thread is given, so that `port_count` ports
    /// are shared out among the threads: the quotient, rounded up.
    pub fn chunk_size(&self, port_count: usize) -> (size: usize)
        requires
            self.thread_count > 0,
        ensures
            size * self.thread_count >= port_count,
            port_count > 0 ==> (size - 1) * self.thread_count < port_count,
            port_count == 0 ==> size == 0,
    {
        let whole = port_count / self.thread_count;
        let rest = port_count % self.thread_count;
        proof {
            vstd::arithmetic::div_mod::lemma_fundamental_div_mod(
                port_count as int,
                self.thread_count as int,
            );
            assert(self.thread_count * whole == whole * self.thread_count) by (nonlinear_arith);
            assert((whole + 1) * self.thread_count == whole * self.thread_count
                + self.thread_count) by (nonlinear_arith);
            assert((whole - 1) * self.thread_count == whole * self.thread_count
                - self.thread_count) by (nonlinear_arith);
            assert(whole * self.thread_count >= whole) by (nonlinear_arith)
                requires
                    self.thread_count >= 1,
                    whole >= 0,
            ;
        }
        if rest == 0 {
            whole
        } else {
            whole + 1
        }
    }
}

/// Where a result for `port` is put in a list that is sorted by port:
/// after every result whose port is not above `port`.
pub open spec fn place_of(results: Seq<ScanResult>, port: u16, from: int) -> int
    decreases results.len() - from,
{
    if 0 <= from < results.len() && results[from].port <= port {
        place_of(results, port, from + 1)
    } else {
        from
    }
}

/// Puts `result` in a list of results at its place by port, after the
/// results of the same port.
pub fn insert_by_port(results: &mut Vec<ScanResult>, result: ScanResult)
    ensures
        final(results)@ == old(results)@.insert(
            place_of(old(results)@, result.port, 0),
            result,
        ),
        0 <= place_of(old(results)@, result.port, 0) <= old(results).len(),
{
    let mut i: usize = 0;
    while i < results.len() && results[i].port <= result.port
        invariant
            i <= results.len(),
            results@ == old(results)@,
            place_of(results@, result.port, 0) == place_of(results@, result.port, i as int),
        decreases results.len() - i,
    {
        i += 1;
    }
    results.insert(i, result);
}

/// Why a list of ports could not be read.
#[derive(Debug, Clone, Copy, PartialEq, Eq, Structural)]
pub enum PortRangeError {
    /// More than one hyphen.
    InvalidFormat,
    /// What stands before the hyphen is no port.
    InvalidStart,
    /// What stands after the hyphen is no port.
    InvalidEnd,
    /// The first port of the range is above the last.
    StartAfterEnd,
    /// The text without hyphen is no port.
    InvalidPort,
}

/// The first position from `from` up to `to` that holds no whitespace.
pub open spec fn trim_start(s: Seq<char>, from: int, to: int) -> int
    decreases to - from,
{
    if 0 <= from < to <= s.len() && is_whitespace(s[from]) {
        trim_start(s, from + 1, to)
    } else {
        from
    }
}

/// The position after the last character from `from` up to `to` that is
/// no whitespace.
pub open spec fn trim_end(s: Seq<char>, from: int, to: int) -> int
    decreases to - from,
{
    if 0 <= from < to <= s.len() && is_whitespace(s[to - 1]) {
        trim_end(s, from, to - 1)
    } else {
        to
    }
}

/// The port that stands from `from` up to `to`, whitespace around it
/// aside: a number of at most sixteen bits.
pub open spec fn port_of(s: Seq<char>, from: int, to: int) -> Option<u16> {
    let start = trim_start(s, from, to);
    let end = trim_end(s, start, to);
    match index_value(s, start, end) {
        Some(port) => if port <= u16::MAX {
            Some(port as u16)
        } else {
            None
        },
        None => None,
    }
}

/// The ports from `start` to `end`, both included.
pub open spec fn ports_between(start: u16, end: u16) -> Seq<u16> {
    Seq::new(
        if end >= start {
            (end - start + 1) as nat
        } else {
            0
        },
        |i: int| (start + i) as u16,
    )
}

/// The ports that a text lists: one port, or a first and a last port with
/// a hyphen between them.
pub open spec fn port_range(s: Seq<char>) -> Result<Seq<u16>, PortRangeError> {
    let dash = find(s, '-', 0, s.len() as int);
    if dash < s.len() {
        if find(s, '-', dash + 1, s.len() as int) < s.len() {
            Err(PortRangeError::InvalidFormat)
        } else {
            match port_of(s, 0, dash) {
                None => Err(PortRangeError::InvalidStart),
                Some(start) => match port_of(s, dash + 1, s.len() as int) {
                    None => Err(PortRangeError::InvalidEnd),
                    Some(end) => if start > end {
                        Err(PortRangeError::StartAfterEnd)
                    } else {
                        Ok(ports_between(start, end))
                    },
                },
            }
        }
    } else {
        match port_of(s, 0, s.len() as int) {
            None => Err(PortRangeError::InvalidPort),
            Some(port) => Ok(seq![port]),
        }
    }
}

/// The port that stands from `from` up to `to`, whitespace around it aside.
pub fn read_port(s: &Vec<char>, from: usize, to: usize) -> (port: Option<u16>)
    requires
        from <= to <= s.len(),
    ensures
        port == port_of(s@, from as int, to as int),
{
    let mut start: usize = from;
    while start < to && char_is_whitespace(s[start])
        invariant
            from <= start <= to <= s.len(),
            trim_start(s@, from as int, to as int) == trim_start(s@, start as int, to as int),
        decreases to - start,
    {
        start += 1;
    }
    let mut end: usize = to;
    while start < end && char_is_whitespace(s[end - 1])
        invariant
            start <= end <= to <= s.len(),
            trim_end(s@, start as int, to as int) == trim_end(s@, start as int, end as int),
        decreases end - start,
    {
        end -= 1;
    }
    match read_index(s, start, end) {
        Some(port) => if port <= 65535 {
            Some(port as u16)
        } else {
            None
        },
        None => None,
    }
}

/// Reads a list of ports: `80` is one port, `80-82` are the ports from 80
/// to 82.
pub fn parse_port_range(input: &str) -> (r: Result<Vec<u16>, PortRangeError>)
    ensures
        match r {
            Ok(ports) => port_range(input@) == Ok::<Seq<u16>, PortRangeError>(ports@),
            Err(e) => port_range(input@) == Err::<Seq<u16>, PortRangeError>(e),
        },
{
    let s = chars_of(input);
    let len = s.len();
    let dash = find_char(&s, '-', 0, len);
    if dash < len {
        if find_char(&s, '-', dash + 1, len) < len {
            return Err(PortRangeError::InvalidFormat);
        }
        let start = match read_port(&s, 0, dash) {
            Some(start) => start,
            None => {
                return Err(PortRangeError::InvalidStart);
            },
        };
        let end = match read_port(&s, dash + 1, len) {
            Some(end) => end,
            None => {
                return Err(PortRangeError::InvalidEnd);
            },
        };
        if start > end {
            return Err(PortRangeError::StartAfterEnd);
        }
        let mut ports: Vec<u16> = Vec::new();
        let mut port: u16 = start;
        loop
            invariant_except_break
                ports@ == ports_between(start, port).drop_last(),
            invariant
                start <= port <= end,
            ensures
                ports@ == ports_between(start, end),
            decreases end - port,
        {
            ports.push(port);
            proof {
                assert(ports@ =~= ports_between(start, port));
            }
            if port == end {
                break ;
            }
            port += 1;
            proof {
                assert(ports@ =~= ports_between(start, port).drop_last());
            }
        }
        Ok(ports)
    } else {
        match read_port(&s, 0, len) {
            Some(port) => {
                let ports = vec![port];
                proof {
                    assert(ports@ =~= seq![port]);
                }
                Ok(ports)
            },
            None => Err(PortRangeError::InvalidPort),
        }
    }
}

impl PortRangeError {
    /// What is said to the user of the error.
    pub fn message(&self) -> (text: &'static str)
        ensures
            text@ == match *self {
                PortRangeError::InvalidFormat => "Invalid port range format. Use: start-end"@,
                PortRangeError::InvalidStart => "Invalid start port"@,
                PortRangeError::InvalidEnd => "Invalid end port"@,
                PortRangeError::StartAfterEnd => "Start port must be less than or equal to end port"@,
                PortRangeError::InvalidPort => "Invalid port number"@,
            },
    {
        match self {
            PortRangeError::InvalidFormat => "Invalid port range format. Use: start-end",
            PortRangeError::InvalidStart => "Invalid start port",
            PortRangeError::InvalidEnd => "Invalid end port",
            PortRangeError::StartAfterEnd => "Start port must be less than or equal to end port",
            PortRangeError::InvalidPort => "Invalid port number",
        }
    }
}

} // verus!
