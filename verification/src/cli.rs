//! The command line options, and the port list that `--ports` selects.
use vstd::prelude::*;
use crate::text::{
    chars_of, parse_u16, parse_u16_exec, split_exec, split_on, split_once, split_once_exec,
    string_of, trim, trim_exec, views,
};

verus! {

/// The options of the `netopo` command (parsed by the application).
#[derive(Debug, Clone)]
pub struct Cli {
    pub scan: bool,
    pub subnet: Option<String>,
    pub ports: Option<String>,
    pub concurrency: usize,
    pub timeout: u64,
    pub connections: bool,
    pub local_only: bool,
    pub exclude_loopback: bool,
    pub watch: Option<u64>,
    pub graph: bool,
    pub min_connections: Option<u32>,
    pub output_json: Option<String>,
    pub output_dot: Option<String>,
    pub ascii: bool,
    pub tui: bool,
    pub verbose: bool,
    pub quiet: bool,
}

/// A part of `--ports` that does not parse.
#[derive(Debug, Clone, PartialEq, Eq)]
pub enum PortSpecError {
    /// A `lo-hi` part with a bound that is not a port.
    InvalidRange(String),
    /// A single part that is not a port.
    InvalidPort(String),
}

pub enum PortSpecErrorView {
    InvalidRange(Seq<char>),
    InvalidPort(Seq<char>),
}

impl View for PortSpecError {
    type V = PortSpecErrorView;

    open spec fn view(&self) -> PortSpecErrorView {
        match self {
            PortSpecError::InvalidRange(s) => PortSpecErrorView::InvalidRange(s@),
            PortSpecError::InvalidPort(s) => PortSpecErrorView::InvalidPort(s@),
        }
    }
}

impl PortSpecError {
    /// The message the command prints for this error.
    pub fn message(&self) -> (m: String)
        ensures
            m@ == match self@ {
                PortSpecErrorView::InvalidRange(p) => "无效端口范围: "@ + p,
                PortSpecErrorView::InvalidPort(p) => "无效端口: "@ + p,
            },
    {
        match self {
            PortSpecError::InvalidRange(p) => {
                let mut m = String::from_str("无效端口范围: ");
                m.append(p.as_str());
                m
            },
            PortSpecError::InvalidPort(p) => {
                let mut m = String::from_str("无效端口: ");
                m.append(p.as_str());
                m
            },
        }
    }
}

/// The ports probed when none are given.
pub open spec fn default_ports() -> Seq<u16> {
    seq![
        21u16,
        22,
        23,
        25,
        53,
        80,
        110,
        143,
        443,
        445,
        3306,
        3389,
        5432,
        5900,
        6379,
        8080,
        8443,
        8888,
        9200,
        27017,
    ]
}

/// The ports probed when none are given.
pub fn default_port_list() -> (v: Vec<u16>)
    ensures
        v@ == default_ports(),
{
    let v: Vec<u16> = vec![
        21, 22, 23, 25, 53, 80, 110, 143, 443, 445, 3306, 3389, 5432, 5900, 6379, 8080, 8443,
        8888, 9200, 27017,
    ];
    assert(v@ == default_ports());
    v
}

/// The ports `lo..=hi` in order (none when `lo > hi`).
pub open spec fn port_range(lo: nat, hi: nat) -> Seq<u16> {
    Seq::new(if lo <= hi { (hi - lo + 1) as nat } else { 0 }, |k: int| (lo + k) as u16)
}

/// The ports `lo, lo + 1, ...`, `n` of them.
pub open spec fn ports_from(lo: nat, n: nat) -> Seq<u16> {
    Seq::new(n, |k: int| (lo + k) as u16)
}

/// Appends `lo..=hi`.
pub fn push_port_range(out: &mut Vec<u16>, lo: u16, hi: u16)
    ensures
        final(out)@ == old(out)@ + port_range(lo as nat, hi as nat),
{
    if lo > hi {
        assert(port_range(lo as nat, hi as nat) =~= seq![]);
        assert(old(out)@ + port_range(lo as nat, hi as nat) =~= old(out)@);
        return;
    }
    let mut p: u32 = lo as u32;
    assert(old(out)@ + ports_from(lo as nat, 0) =~= old(out)@);
    while p <= hi as u32
        invariant
            lo <= hi,
            lo <= p <= hi as u32 + 1,
            out@ == old(out)@ + ports_from(lo as nat, (p - lo) as nat),
        decreases hi as u32 + 1 - p,
    {
        assert(ports_from(lo as nat, (p + 1 - lo) as nat) =~= ports_from(lo as nat, (p - lo) as nat).push(
            p as u16,
        ));
        out.push(p as u16);
        p += 1;
    }
    assert(ports_from(lo as nat, (p - lo) as nat) =~= port_range(lo as nat, hi as nat));
}

/// One comma-separated part of `--ports`: `lo-hi` or a single port.
pub open spec fn spec_cli_part(raw: Seq<char>) -> Result<Seq<u16>, PortSpecErrorView> {
    let part = trim(raw);
    match split_once(part, '-') {
        Some((lo, hi)) => match (parse_u16(trim(lo)), parse_u16(trim(hi))) {
            (Some(l), Some(h)) => Ok(port_range(l, h)),
            _ => Err(PortSpecErrorView::InvalidRange(part)),
        },
        None => match parse_u16(part) {
            Some(p) => Ok(seq![p as u16]),
            None => Err(PortSpecErrorView::InvalidPort(part)),
        },
    }
}

/// The ports of parts `i..`, or the error of the first part that fails.
pub open spec fn spec_cli_parts(parts: Seq<Seq<char>>, i: int) -> Result<Seq<u16>, PortSpecErrorView>
    decreases parts.len() - i,
{
    if i < 0 || i >= parts.len() {
        Ok(seq![])
    } else {
        match spec_cli_part(parts[i]) {
            Err(e) => Err(e),
            Ok(ps) => match spec_cli_parts(parts, i + 1) {
                Ok(rest) => Ok(ps + rest),
                Err(e) => Err(e),
            },
        }
    }
}

/// `--ports`: absent, or yielding no port, gives the default list.
pub open spec fn spec_cli_ports(ports: Option<Seq<char>>) -> Result<Seq<u16>, PortSpecErrorView> {
    match ports {
        None => Ok(default_ports()),
        Some(spec) => match spec_cli_parts(split_on(spec, ','), 0) {
            Ok(v) => if v.len() == 0 {
                Ok(default_ports())
            } else {
                Ok(v)
            },
            Err(e) => Err(e),
        },
    }
}

fn cli_part(raw: &[char], out: &mut Vec<u16>) -> (r: Result<(), PortSpecError>)
    ensures
        match r {
            Ok(()) => spec_cli_part(raw@) matches Ok(ps) && final(out)@ == old(out)@ + ps,
            Err(e) => spec_cli_part(raw@) == Err::<Seq<u16>, PortSpecErrorView>(e@),
        },
{
    let part = trim_exec(raw);
    match split_once_exec(part.as_slice(), '-') {
        Some((lo, hi)) => {
            let lo_t = trim_exec(lo.as_slice());
            let hi_t = trim_exec(hi.as_slice());
            let l = parse_u16_exec(lo_t.as_slice());
            let h = parse_u16_exec(hi_t.as_slice());
            match (l, h) {
                (Some(l), Some(h)) => {
                    push_port_range(out, l, h);
                    Ok(())
                },
                _ => Err(PortSpecError::InvalidRange(string_of(part.as_slice()))),
            }
        },
        None => match parse_u16_exec(part.as_slice()) {
            Some(p) => {
                out.push(p);
                Ok(())
            },
            None => Err(PortSpecError::InvalidPort(string_of(part.as_slice()))),
        },
    }
}

impl Cli {
    /// The ports given by `--ports` ("22,80,443" or "1-1024"), or the
    /// default list when the option is absent or gives no port.
    pub fn parse_ports(&self) -> (r: Result<Vec<u16>, PortSpecError>)
        ensures
            match r {
                Ok(v) => spec_cli_ports(crate::data_manager::opt_view(self.ports)) == Ok::<
                    Seq<u16>,
                    PortSpecErrorView,
                >(v@),
                Err(e) => spec_cli_ports(crate::data_manager::opt_view(self.ports)) == Err::<
                    Seq<u16>,
                    PortSpecErrorView,
                >(e@),
            },
    {
        let spec = match &self.ports {
            None => {
                return Ok(default_port_list());
            },
            Some(s) => chars_of(s.as_str()),
        };
        let parts = split_exec(spec.as_slice(), ',');
        let ghost pv = views(parts@);
        let mut result: Vec<u16> = Vec::new();
        let mut i: usize = 0;
        while i < parts.len()
            invariant
                i <= parts@.len(),
                crate::data_manager::opt_view(self.ports) == Some(spec@),
                pv == views(parts@),
                pv == split_on(spec@, ','),
                spec_cli_parts(pv, 0) == match spec_cli_parts(pv, i as int) {
                    Ok(rest) => Ok::<Seq<u16>, PortSpecErrorView>(result@ + rest),
                    Err(e) => Err(e),
                },
            decreases parts@.len() - i,
        {
            assert(pv[i as int] == parts@[i as int]@);
            let ghost before = result@;
            match cli_part(parts[i].as_slice(), &mut result) {
                Ok(()) => {},
                Err(e) => {
                    return Err(e);
                },
            }
            proof {
                let ps = spec_cli_part(pv[i as int])->Ok_0;
                assert(result@ == before + ps);
                match spec_cli_parts(pv, i + 1) {
                    Ok(rest) => {
                        assert(before + (ps + rest) =~= result@ + rest);
                    },
                    Err(e) => {},
                }
            }
            i += 1;
        }
        if result.len() == 0 {
            return Ok(default_port_list());
        }
        Ok(result)
    }
}

} // verus!
