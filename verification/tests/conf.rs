use wireguard_gui::conf::{parse_conf, serialize_conf, serialize_peers_for_setconf, PeerConf, WgConf};

#[test]
fn roundtrip_full_conf() {
    let src = "\
# 我的 VPN 服务端
[Interface]
Address = 10.66.66.5/32
ListenPort = 51820
PrivateKey = PRIV123
MTU = 1420
PostUp = iptables -A FORWARD -i wg0 -j ACCEPT
FwMark = 0xca6c

[Peer]
PublicKey = PEER000
PresharedKey = PSK000
AllowedIPs = 10.66.66.0/24, 10.66.66.1/32
Endpoint = vpn.example.com:51820
PersistentKeepalive = 25

[Peer]
PublicKey = PEER001
AllowedIPs = 10.66.67.0/24
";
    let conf = parse_conf(src).unwrap();
    assert_eq!(conf.interface.address, vec!["10.66.66.5/32"]);
    assert_eq!(conf.interface.listen_port, Some(51820));
    assert_eq!(conf.interface.mtu, Some(1420));
    assert_eq!(conf.interface.post_up.len(), 1);
    assert_eq!(conf.interface.extras, vec![("FwMark".into(), "0xca6c".into())]);
    assert_eq!(conf.peers.len(), 2);
    assert_eq!(conf.peers[0].allowed_ips.len(), 2);
    assert_eq!(conf.peers[0].endpoint.as_deref(), Some("vpn.example.com:51820"));
    assert!(conf.peers[1].preshared_key.is_none());

    let out = serialize_conf(&conf);
    let reparsed = parse_conf(&out).unwrap();
    assert_eq!(reparsed.interface.address, conf.interface.address);
    assert_eq!(reparsed.interface.extras, conf.interface.extras);
    assert_eq!(reparsed.peers.len(), 2);
    assert_eq!(reparsed.peers[0].allowed_ips, conf.peers[0].allowed_ips);
    assert_eq!(reparsed.peers[1].allowed_ips, conf.peers[1].allowed_ips);
}

#[test]
fn setconf_text_has_no_interface() {
    let peers = vec![PeerConf {
        public_key: "K".into(),
        allowed_ips: vec!["10.0.0.2/32".into()],
        ..Default::default()
    }];
    let text = serialize_peers_for_setconf(&peers);
    assert!(!text.contains("[Interface]"));
    assert!(text.contains("[Peer]"));
}

fn sample_conf() -> WgConf {
    let mut conf = WgConf::default();
    conf.interface.address = vec!["10.0.0.1/24".to_string(), "fd00::1/64".to_string()];
    conf.interface.listen_port = Some(51820);
    conf.interface.private_key = Some("PRIV".to_string());
    conf.interface.dns = vec!["1.1.1.1".to_string()];
    conf.interface.mtu = Some(1380);
    conf.interface.table = Some("off".to_string());
    conf.interface.pre_up = vec!["echo up".to_string()];
    conf.interface.post_down = vec!["echo down".to_string()];
    conf.interface.extras = vec![("SaveConfig".to_string(), "true".to_string())];
    conf.peers = vec![
        PeerConf {
            public_key: "PUB1".to_string(),
            preshared_key: Some("PSK1".to_string()),
            allowed_ips: vec!["10.0.0.2/32".to_string()],
            endpoint: Some("example.org:51820".to_string()),
            persistent_keepalive: Some(25),
            extras: vec![("Custom".to_string(), "x".to_string())],
        },
        PeerConf {
            public_key: "PUB2".to_string(),
            ..Default::default()
        },
    ];
    conf
}

#[test]
fn serialized_configuration_has_canonical_text() {
    let text = serialize_conf(&sample_conf());
    assert_eq!(
        text,
        "[Interface]\nAddress = 10.0.0.1/24\nAddress = fd00::1/64\nListenPort = 51820\n\
         PrivateKey = PRIV\nDNS = 1.1.1.1\nMTU = 1380\nTable = off\nPreUp = echo up\n\
         PostDown = echo down\nSaveConfig = true\n\n[Peer]\nPublicKey = PUB1\n\
         PresharedKey = PSK1\nAllowedIPs = 10.0.0.2/32\nEndpoint = example.org:51820\n\
         PersistentKeepalive = 25\nCustom = x\n\n[Peer]\nPublicKey = PUB2\n"
    );
}

#[test]
fn writing_then_reading_gives_the_configuration_back() {
    let conf = sample_conf();
    let back = parse_conf(&serialize_conf(&conf)).unwrap();
    assert_eq!(back.interface.address, conf.interface.address);
    assert_eq!(back.interface.listen_port, conf.interface.listen_port);
    assert_eq!(back.interface.private_key, conf.interface.private_key);
    assert_eq!(back.interface.dns, conf.interface.dns);
    assert_eq!(back.interface.mtu, conf.interface.mtu);
    assert_eq!(back.interface.table, conf.interface.table);
    assert_eq!(back.interface.pre_up, conf.interface.pre_up);
    assert_eq!(back.interface.post_up, conf.interface.post_up);
    assert_eq!(back.interface.pre_down, conf.interface.pre_down);
    assert_eq!(back.interface.post_down, conf.interface.post_down);
    assert_eq!(back.interface.extras, conf.interface.extras);
    assert_eq!(back.peers.len(), 2);
    for (a, b) in back.peers.iter().zip(conf.peers.iter()) {
        assert_eq!(a.public_key, b.public_key);
        assert_eq!(a.preshared_key, b.preshared_key);
        assert_eq!(a.allowed_ips, b.allowed_ips);
        assert_eq!(a.endpoint, b.endpoint);
        assert_eq!(a.persistent_keepalive, b.persistent_keepalive);
        assert_eq!(a.extras, b.extras);
    }
}

#[test]
fn setconf_text_reads_back_as_peers_only() {
    let conf = sample_conf();
    let text = serialize_peers_for_setconf(&conf.peers);
    assert!(text.starts_with("[Peer]\nPublicKey = PUB1\n"));
    let back = parse_conf(&text).unwrap();
    assert!(back.interface.address.is_empty());
    assert!(back.interface.private_key.is_none());
    assert!(back.interface.extras.is_empty());
    assert_eq!(back.peers.len(), 2);
    assert_eq!(back.peers[0].extras, conf.peers[0].extras);
    assert_eq!(serialize_peers_for_setconf(&[]), "");
}

#[test]
fn comments_blank_values_and_crlf_are_handled() {
    let conf = parse_conf(
        "[Interface] ; main\r\nAddress = 10.0.0.1/24 # primary\r\nDNS =\r\n  ; nothing\r\nListenPort = not-a-port\r\n[ Peer ]\r\nPublicKey = K\r\nAllowedIPs = , 10.0.0.2/32 ,,\r\nPersistentKeepalive = 70000\r\n",
    )
    .unwrap();
    assert_eq!(conf.interface.address, vec!["10.0.0.1/24"]);
    assert!(conf.interface.dns.is_empty());
    assert_eq!(conf.interface.listen_port, None);
    assert_eq!(conf.peers.len(), 1);
    assert_eq!(conf.peers[0].public_key, "K");
    assert_eq!(conf.peers[0].allowed_ips, vec!["10.0.0.2/32"]);
    assert_eq!(conf.peers[0].persistent_keepalive, None);
}

#[test]
fn parse_errors_name_the_line() {
    assert_eq!(
        parse_conf("[Interface\n").unwrap_err(),
        "第 1 行段头格式错误: [Interface"
    );
    assert_eq!(
        parse_conf("\n[Unknown]\nValue = broken\n").unwrap_err(),
        "第 2 行未知段 [Unknown]"
    );
    assert_eq!(
        parse_conf("[Interface]\njust words\n").unwrap_err(),
        "第 2 行不是 key = value 格式: just words"
    );
    assert_eq!(
        parse_conf("[Interface]\n = value\n").unwrap_err(),
        "第 2 行不是 key = value 格式: = value"
    );
    assert_eq!(
        parse_conf("Address = 10.0.0.1/24\n").unwrap_err(),
        "第 1 行键出现在任何段之外: Address = 10.0.0.1/24"
    );
}

#[test]
fn empty_text_is_an_empty_configuration() {
    let conf = parse_conf("").unwrap();
    assert!(conf.interface.address.is_empty());
    assert!(conf.peers.is_empty());
    assert_eq!(serialize_conf(&conf), "[Interface]\n");
}

#[test]
fn numeric_values_that_do_not_parse_are_kept() {
    let conf = parse_conf(
        "[Interface]\nListenPort = abc\nMTU = 1420\nMTU = big\n[Peer]\nPublicKey = K\nPersistentKeepalive = often\n",
    )
    .unwrap();
    assert_eq!(conf.interface.listen_port, None);
    assert_eq!(conf.interface.mtu, Some(1420));
    assert_eq!(
        conf.interface.extras,
        vec![
            ("ListenPort".to_string(), "abc".to_string()),
            ("MTU".to_string(), "big".to_string())
        ]
    );
    assert_eq!(conf.peers[0].persistent_keepalive, None);
    assert_eq!(
        conf.peers[0].extras,
        vec![("PersistentKeepalive".to_string(), "often".to_string())]
    );
    let text = serialize_conf(&conf);
    assert!(text.contains("ListenPort = abc\n"));
    assert!(text.contains("MTU = 1420\n"));
    assert!(text.contains("MTU = big\n"));
    assert!(text.contains("PersistentKeepalive = often\n"));
    let again = parse_conf(&text).unwrap();
    assert_eq!(again.interface.extras, conf.interface.extras);
    assert_eq!(again.interface.mtu, Some(1420));
    assert_eq!(again.peers[0].extras, conf.peers[0].extras);
    assert_eq!(
        serialize_conf(&parse_conf("[Interface]\nListenPort = abc\n").unwrap()),
        "[Interface]\nListenPort = abc\n"
    );
}

#[test]
fn setconf_texts_of_two_lists_join_with_a_blank_line() {
    let a = vec![PeerConf {
        public_key: "A".to_string(),
        allowed_ips: vec!["10.0.0.2/32".to_string()],
        ..Default::default()
    }];
    let b = vec![
        PeerConf {
            public_key: "B".to_string(),
            persistent_keepalive: Some(25),
            ..Default::default()
        },
        PeerConf {
            public_key: "C".to_string(),
            ..Default::default()
        },
    ];
    let both: Vec<PeerConf> = a.iter().chain(b.iter()).cloned().collect();
    assert_eq!(
        serialize_peers_for_setconf(&both),
        format!(
            "{}\n{}",
            serialize_peers_for_setconf(&a),
            serialize_peers_for_setconf(&b)
        )
    );
    assert_eq!(
        serialize_peers_for_setconf(&a),
        "[Peer]\nPublicKey = A\nAllowedIPs = 10.0.0.2/32\n"
    );
}
