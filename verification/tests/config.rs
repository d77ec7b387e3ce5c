use reth2030::config::{default_datadir, Chain, NodeConfig};

#[test]
fn default_for_uses_expected_ports() {
    let cfg = NodeConfig::default_for(Chain::Mainnet, Some("/home/user"));
    assert_eq!(cfg.http_port, 8545);
    assert_eq!(cfg.authrpc_port, 8551);
    assert_eq!(cfg.p2p_port, 30303);
    assert_eq!(cfg.max_peers, 50);
}

#[test]
fn default_for_preserves_chain() {
    let cfg = NodeConfig::default_for(Chain::Sepolia, Some("/home/user"));
    assert_eq!(cfg.chain, Chain::Sepolia);
}

#[test]
fn datadir_defaults_to_dot_reth2030() {
    let cfg = NodeConfig::default_for(Chain::Holesky, Some("/home/user"));
    let rendered = cfg.datadir.clone();
    assert!(rendered.ends_with(".reth2030"));
}

#[test]
fn chain_display_matches_str() {
    assert_eq!(Chain::Mainnet.as_str(), "mainnet");
    assert_eq!(Chain::Sepolia.as_str(), "sepolia");
    assert_eq!(Chain::Holesky.as_str(), "holesky");
}

#[test]
fn datadir_joins_home_directory() {
    assert_eq!(default_datadir(Some("/home/user")), "/home/user/.reth2030");
    assert_eq!(default_datadir(Some("/home/user/")), "/home/user/.reth2030");
    assert_eq!(default_datadir(Some("")), ".reth2030");
}

#[test]
fn datadir_falls_back_without_home_directory() {
    assert_eq!(default_datadir(None), "~/.reth2030");
    let cfg = NodeConfig::default_for(Chain::Mainnet, None);
    assert_eq!(cfg.datadir, "~/.reth2030");
}
