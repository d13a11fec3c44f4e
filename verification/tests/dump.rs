use wireguard_gui::dump::parse_dump;

#[test]
fn parses_dump() {
    let privkey = "B".repeat(44);
    let pubkey = "A".repeat(44);
    let peer_a = "C".repeat(44);
    let peer_b = "D".repeat(44);
    let psk = "E".repeat(44);
    let sample = format!(
        "wg0\t{privkey}\t{pubkey}\t51820\toff\n\
         wg0\t{peer_a}\t{psk}\t1.2.3.4:51820\t10.66.66.0/24,10.66.66.1/32\t1700000000\t1024\t2048\toff\n\
         wg0\t{peer_b}\t\t(no endpoint)\t10.0.0.2/32\t0\t0\t0\t25\n"
    );
    let parsed = parse_dump(&sample).unwrap();
    assert_eq!(parsed.len(), 1);
    let iface = &parsed[0];
    assert_eq!(iface.name, "wg0");
    assert_eq!(iface.listen_port, 51820);
    assert!(iface.fwmark.is_none());
    assert_eq!(iface.private_key.as_deref(), Some(privkey.as_str()));
    assert_eq!(iface.public_key, pubkey);
    assert_eq!(iface.peers.len(), 2);
    assert_eq!(iface.peers[0].endpoint.as_deref(), Some("1.2.3.4:51820"));
    assert_eq!(iface.peers[0].allowed_ips.len(), 2);
    assert_eq!(iface.peers[0].transfer_rx, 1024);
    assert!(iface.peers[1].endpoint.is_none());
    assert_eq!(iface.peers[1].persistent_keepalive, Some(25));
    assert_eq!(iface.peers[0].preshared_key.as_deref(), Some(psk.as_str()));
}

#[test]
fn dump_fields_follow_the_documented_rules() {
    let sample = "wg0\t(hidden)\tPUB\tx\t0xca6c\r\n\
                  wg0\tPEER\t(hidden)\t\t 10.0.0.2/32 , ,10.0.0.3/32\t 12 \tjunk\t7\t(hidden)\n\
                  \n\
                  wg1\t\tPUB1\t 51821 \t\n";
    let parsed = parse_dump(sample).unwrap();
    assert_eq!(parsed.len(), 2);
    assert_eq!(parsed[0].private_key, None);
    assert_eq!(parsed[0].listen_port, 0);
    assert_eq!(parsed[0].fwmark.as_deref(), Some("0xca6c"));
    let peer = &parsed[0].peers[0];
    assert_eq!(peer.public_key, "PEER");
    assert_eq!(peer.preshared_key, None);
    assert_eq!(peer.endpoint, None);
    assert_eq!(peer.allowed_ips, vec!["10.0.0.2/32", "10.0.0.3/32"]);
    assert_eq!(peer.latest_handshake, 12);
    assert_eq!(peer.transfer_rx, 0);
    assert_eq!(peer.transfer_tx, 7);
    assert_eq!(peer.persistent_keepalive, None);
    assert_eq!(parsed[1].name, "wg1");
    assert_eq!(parsed[1].private_key, None);
    assert_eq!(parsed[1].listen_port, 51821);
    assert_eq!(parsed[1].fwmark, None);
    assert!(parsed[1].peers.is_empty());
}

#[test]
fn dump_errors_name_the_line() {
    assert_eq!(
        parse_dump("lonely\n").unwrap_err(),
        "dump 第 1 行字段不足: \"lonely\""
    );
    assert_eq!(
        parse_dump("\nwg0\tK\t\t\t\t0\t0\t0\toff\n").unwrap_err(),
        "dump 第 2 行出现孤立 peer 记录"
    );
    assert_eq!(
        parse_dump("a\tb\tc\n").unwrap_err(),
        "dump 第 1 行无法识别: \"a\\tb\\tc\""
    );
    assert!(parse_dump("").unwrap().is_empty());
}
