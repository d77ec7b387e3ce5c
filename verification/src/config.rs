//! Node configuration: the supported chains and the default settings.

use vstd::prelude::*;

verus! {

/// A supported network.
#[derive(Debug, Clone, Copy, PartialEq, Eq)]
pub enum Chain {
    Mainnet,
    Sepolia,
    Holesky,
}

/// The name of a chain.
pub open spec fn chain_name(c: Chain) -> Seq<char> {
    match c {
        Chain::Mainnet => "mainnet"@,
        Chain::Sepolia => "sepolia"@,
        Chain::Holesky => "holesky"@,
    }
}

impl Chain {
    /// The chain's lowercase name.
    pub fn as_str(self) -> (r: &'static str)
        ensures
            r@ == chain_name(self),
    {
        match self {
            Chain::Mainnet => "mainnet",
            Chain::Sepolia => "sepolia",
            Chain::Holesky => "holesky",
        }
    }
}

/// The data directory under home directory `home` (`None` when unknown):
/// `<home>/.reth2030`, without doubling a trailing `/`; `~/.reth2030` when
/// the home directory is unknown.
pub open spec fn datadir_for(home: Option<Seq<char>>) -> Seq<char> {
    match home {
        None => "~/.reth2030"@,
        Some(h) => if h.len() == 0 {
            ".reth2030"@
        } else if h.last() == '/' {
            h + ".reth2030"@
        } else {
            h + "/.reth2030"@
        },
    }
}

/// The view of an optional string slice.
pub open spec fn opt_str_view(s: Option<&str>) -> Option<Seq<char>> {
    match s {
        Some(x) => Some(x@),
        None => None,
    }
}

/// The default data directory for home directory `home`.
pub fn default_datadir(home: Option<&str>) -> (r: String)
    ensures
        r@ == datadir_for(opt_str_view(home)),
{
    match home {
        None => String::from_str("~/.reth2030"),
        Some(h) => {
            let n = h.unicode_len();
            if n == 0 {
                String::from_str(".reth2030")
            } else if h.get_char(n - 1) == '/' {
                let mut s = String::from_str(h);
                s.append(".reth2030");
                s
            } else {
                let mut s = String::from_str(h);
                s.append("/.reth2030");
                s
            }
        },
    }
}

/// Node settings.
#[derive(Debug, Clone, PartialEq, Eq)]
pub struct NodeConfig {
    pub chain: Chain,
    pub datadir: String,
    pub http_port: u16,
    pub authrpc_port: u16,
    pub p2p_port: u16,
    pub max_peers: usize,
}

impl NodeConfig {
    /// The default settings for `chain`, for a user whose home directory is
    /// `home`: HTTP port 8545, auth RPC port 8551, P2P port 30303, 50 peers.
    pub fn default_for(chain: Chain, home: Option<&str>) -> (r: NodeConfig)
        ensures
            r.chain == chain,
            r.datadir@ == datadir_for(opt_str_view(home)),
            r.http_port == 8545,
            r.authrpc_port == 8551,
            r.p2p_port == 30303,
            r.max_peers == 50,
    {
        NodeConfig {
            chain,
            datadir: default_datadir(home),
            http_port: 8545,
            authrpc_port: 8551,
            p2p_port: 30303,
            max_peers: 50,
        }
    }
}

} // verus!
