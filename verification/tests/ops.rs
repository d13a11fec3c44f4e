use std::cell::{Cell, RefCell};
use std::collections::{HashMap, HashSet};

use wireguard_gui::conf::{parse_conf, PeerConf};
use wireguard_gui::host::{InterfaceAction, InterfaceDetails, WireGuardHost};
use wireguard_gui::ops::{
    export_layout, interfaces_from_dump, key_pair, sync_refusal, with_kept_extras,
    conf_interface, config_outcome, interface_statuses, keep_peer_extras, missing_config_outcome,
    peers_outcome, select_configs, validate_conf_name, validate_export_path, validate_iface_name,
    ApplyMode, ApplyOutcome, WireGuard,
};
use wireguard_gui::dump::parse_dump;

#[derive(Default)]
struct InMemoryHost {
    dump: String,
    configurations: RefCell<HashMap<String, String>>,
    running: RefCell<HashSet<String>>,
    applied_peers: RefCell<Vec<(String, String)>>,
    fail_sync: Cell<bool>,
}

impl WireGuardHost for InMemoryHost {
    fn show_all_dump(&self) -> Result<String, String> {
        Ok(self.dump.clone())
    }

    fn list_config_names(&self) -> Result<Vec<String>, String> {
        Ok(self.configurations.borrow().keys().cloned().collect())
    }

    fn read_config(&self, name: &str) -> Result<String, String> {
        self.configurations
            .borrow()
            .get(name)
            .cloned()
            .ok_or_else(|| format!("配置 {name} 不存在"))
    }

    fn write_config(&self, name: &str, content: &str) -> Result<(), String> {
        self.configurations
            .borrow_mut()
            .insert(name.to_string(), content.to_string());
        Ok(())
    }

    fn export_config(&self, _name: &str, _destination: &str, _home: &str) -> Result<(), String> {
        Ok(())
    }

    fn interface_details(&self, _name: &str) -> InterfaceDetails {
        InterfaceDetails::default()
    }

    fn interface_stats(&self, _name: &str) -> (u64, u64) {
        (0, 0)
    }

    fn interface_exists(&self, name: &str) -> bool {
        self.running.borrow().contains(name)
    }

    fn apply_interface(&self, name: &str, action: InterfaceAction) -> Result<(), String> {
        match action {
            InterfaceAction::Up | InterfaceAction::Restart => {
                self.running.borrow_mut().insert(name.to_string());
            }
            InterfaceAction::Down => {
                self.running.borrow_mut().remove(name);
            }
            InterfaceAction::Sync if self.fail_sync.get() => {
                return Err("injected sync failure".to_string());
            }
            InterfaceAction::Sync => {}
        }
        Ok(())
    }

    fn set_peers(&self, name: &str, configuration: &str) -> Result<(), String> {
        self.applied_peers
            .borrow_mut()
            .push((name.to_string(), configuration.to_string()));
        Ok(())
    }

    fn generate_private_key(&self) -> Result<String, String> {
        Ok("private".to_string())
    }

    fn derive_public_key(&self, _private_key: &str) -> Result<String, String> {
        Ok("public".to_string())
    }

    fn generate_preshared_key(&self) -> Result<String, String> {
        Ok("preshared".to_string())
    }
}

#[test]
fn apply_config_reports_persistence_when_sync_fails() {
    let host = InMemoryHost::default();
    host.running.borrow_mut().insert("wg0".to_string());
    host.fail_sync.set(true);
    let wireguard = WireGuard::new(host);

    let outcome = wireguard
        .apply_config("wg0.conf", "[Interface]\n", true)
        .unwrap();

    assert!(outcome.persisted);
    assert!(!outcome.runtime_applied);
    assert_eq!(outcome.warnings.len(), 1);
    assert!(wireguard
        .host_ref()
        .configurations
        .borrow()
        .contains_key("wg0.conf"));
}

#[test]
fn persistent_peer_apply_preserves_existing_extras() {
    let host = InMemoryHost::default();
    host.running.borrow_mut().insert("wg0".to_string());
    host.configurations.borrow_mut().insert(
        "wg0.conf".to_string(),
        "[Interface]\nAddress = 10.0.0.1/24\n\n[Peer]\nPublicKey = peer-key\nAllowedIPs = 10.0.0.2/32\nCustomPeerKey = keep-me\n".to_string(),
    );
    let wireguard = WireGuard::new(host);
    let peers = vec![PeerConf {
        public_key: "peer-key".to_string(),
        allowed_ips: vec!["10.0.0.3/32".to_string()],
        ..Default::default()
    }];

    let outcome = wireguard
        .apply_peers("wg0", &peers, ApplyMode::PersistAndSync)
        .unwrap();

    assert_eq!(outcome, ApplyOutcome::persisted_and_runtime());
    let saved = wireguard.host_ref().configurations.borrow()["wg0.conf"].clone();
    let parsed = parse_conf(&saved).unwrap();
    assert_eq!(parsed.interface.address, ["10.0.0.1/24"]);
    assert_eq!(
        parsed.peers[0].extras,
        [("CustomPeerKey".to_string(), "keep-me".to_string())]
    );
}

#[test]
fn missing_configuration_falls_back_to_runtime_apply() {
    let wireguard = WireGuard::new(InMemoryHost::default());
    let peers = vec![PeerConf {
        public_key: "peer-key".to_string(),
        allowed_ips: vec!["10.0.0.2/32".to_string()],
        ..Default::default()
    }];

    let outcome = wireguard
        .apply_peers("wg0", &peers, ApplyMode::PersistAndSync)
        .unwrap();

    assert!(!outcome.persisted);
    assert!(outcome.runtime_applied);
    assert_eq!(outcome.warnings.len(), 1);
    assert_eq!(wireguard.host_ref().applied_peers.borrow().len(), 1);
}

#[test]
fn malformed_configuration_is_not_persisted() {
    let wireguard = WireGuard::new(InMemoryHost::default());

    let result = wireguard.apply_config("wg0.conf", "[Unknown]\nValue = broken\n", false);

    assert!(result.is_err());
    assert!(wireguard.host_ref().configurations.borrow().is_empty());
}

#[test]
fn export_path_stays_inside_home() {
    assert_eq!(
        validate_export_path("/home/alice/Downloads/wg0.conf", "/home/alice").unwrap(),
        "/home/alice/Downloads/wg0.conf".to_string()
    );
    assert!(validate_export_path("/etc/wg0.conf", "/home/alice").is_err());
    assert!(validate_export_path("/home/alice/../bob/wg0.conf", "/home/alice").is_err());
}

#[test]
fn export_destination_edge_cases() {
    let message = "导出路径必须位于当前用户主目录内".to_string();
    assert_eq!(validate_export_path("/home/alice", "/home/alice"), Err(message.clone()));
    assert_eq!(validate_export_path("/home/alice/", "/home/alice"), Err(message.clone()));
    assert_eq!(
        validate_export_path("home/alice/wg0.conf", "home/alice"),
        Err(message.clone())
    );
    assert_eq!(validate_export_path("/home/alicex/wg0.conf", "/home/alice"), Err(message));
    assert_eq!(
        validate_export_path("/home/alice/./x//wg0.conf", "/home/alice/"),
        Ok("/home/alice/./x//wg0.conf".to_string())
    );
}

#[test]
fn names_are_checked_against_the_safe_set() {
    assert_eq!(validate_conf_name("wg0.conf"), Ok(()));
    assert_eq!(validate_conf_name("my-vpn_1.conf"), Ok(()));
    assert_eq!(
        validate_conf_name("../evil.conf"),
        Err("非法配置文件名: \"../evil.conf\"".to_string())
    );
    assert_eq!(
        validate_conf_name(".hidden.conf"),
        Err("非法配置文件名: \".hidden.conf\"".to_string())
    );
    assert!(validate_conf_name("wg0.txt").is_err());
    assert!(validate_conf_name("").is_err());
    assert!(validate_conf_name(&format!("{}.conf", "a".repeat(60))).is_err());
    assert!(validate_conf_name(&format!("{}.conf", "a".repeat(59))).is_ok());
    assert_eq!(
        validate_conf_name("a\"b.conf"),
        Err("非法配置文件名: \"a\\\"b.conf\"".to_string())
    );
    assert_eq!(validate_iface_name("wg0"), Ok(()));
    assert_eq!(
        validate_iface_name("wg0/../x"),
        Err("非法接口名: \"wg0/../x\"".to_string())
    );
    assert!(validate_iface_name("abcdefghijklmnop").is_err());
    assert!(validate_iface_name("abcdefghijklmno").is_ok());
}

#[test]
fn listing_keeps_valid_names_sorted() {
    let listed = select_configs(vec![
        "wg1.conf".to_string(),
        "notes.txt".to_string(),
        "Wg9.conf".to_string(),
        "wg0.conf".to_string(),
        ".x.conf".to_string(),
    ]);
    assert_eq!(listed, vec!["Wg9.conf", "wg0.conf", "wg1.conf"]);

    let host = InMemoryHost::default();
    host.configurations
        .borrow_mut()
        .insert("b.conf".to_string(), String::new());
    host.configurations
        .borrow_mut()
        .insert("a.conf".to_string(), String::new());
    host.configurations
        .borrow_mut()
        .insert("bad name.conf".to_string(), String::new());
    assert_eq!(
        WireGuard::new(host).list_configs().unwrap(),
        vec!["a.conf", "b.conf"]
    );
}

#[test]
fn configuration_names_map_to_interfaces() {
    assert_eq!(conf_interface("wg0.conf"), "wg0");
    assert_eq!(conf_interface("wg0.conf.conf"), "wg0");
    assert_eq!(conf_interface("wg0"), "wg0");
}

#[test]
fn outcome_messages_describe_partial_success() {
    let offline = config_outcome("wg0", false, Ok(()));
    assert!(offline.persisted && !offline.runtime_applied);
    assert_eq!(offline.warnings, vec!["接口 wg0 未运行，配置已保存"]);
    let failed = config_outcome("wg0", true, Err("boom".to_string()));
    assert_eq!(failed.warnings, vec!["配置已保存，热同步失败: boom"]);
    assert_eq!(config_outcome("wg0", true, Ok(())), ApplyOutcome::persisted_and_runtime());

    let offline = peers_outcome("wg0", false, Ok(()));
    assert_eq!(offline.warnings, vec!["接口 wg0 未运行，Peer 更改已持久化"]);
    let failed = peers_outcome("wg0", true, Err("boom".to_string()));
    assert!(failed.persisted && !failed.runtime_applied);
    assert_eq!(failed.warnings, vec!["Peer 更改已持久化，热同步失败: boom"]);

    let missing = missing_config_outcome("wg0.conf");
    assert!(!missing.persisted && missing.runtime_applied);
    assert_eq!(
        missing.warnings,
        vec!["未找到 wg0.conf，Peer 更改仅应用到 Runtime Interface"]
    );
    assert_eq!(ApplyOutcome::persisted().warnings.len(), 0);
    assert!(ApplyOutcome::runtime().runtime_applied);
}

#[test]
fn empty_extras_are_taken_from_the_saved_peer() {
    let existing = vec![
        PeerConf {
            public_key: "A".to_string(),
            extras: vec![("X".to_string(), "1".to_string())],
            ..Default::default()
        },
        PeerConf {
            public_key: "A".to_string(),
            extras: vec![("X".to_string(), "2".to_string())],
            ..Default::default()
        },
    ];
    let next = vec![
        PeerConf {
            public_key: "A".to_string(),
            ..Default::default()
        },
        PeerConf {
            public_key: "A".to_string(),
            extras: vec![("Y".to_string(), "own".to_string())],
            ..Default::default()
        },
        PeerConf {
            public_key: "B".to_string(),
            ..Default::default()
        },
    ];
    let kept = keep_peer_extras(&existing, &next);
    assert_eq!(kept.len(), 3);
    assert_eq!(kept[0].extras, vec![("X".to_string(), "2".to_string())]);
    assert_eq!(kept[1].extras, vec![("Y".to_string(), "own".to_string())]);
    assert!(kept[2].extras.is_empty());
}

#[test]
fn statuses_list_running_then_configured_interfaces() {
    let parsed = parse_dump("wg0\tPRIV\tPUB\t51820\toff\nwg0\tPEER\t\t\t10.0.0.2/32\t0\t5\t6\toff\n").unwrap();
    let details = vec![InterfaceDetails {
        addresses: vec!["10.0.0.1/24".to_string()],
        mtu: Some(1420),
    }];
    let statuses = interface_statuses(
        parsed,
        details,
        vec![(10, 20)],
        Some(vec![
            "wg0.conf".to_string(),
            "wg1.conf".to_string(),
            "wg1.conf.conf".to_string(),
        ]),
    );
    assert_eq!(statuses.len(), 2);
    assert_eq!(statuses[0].name, "wg0");
    assert!(statuses[0].running);
    assert_eq!(statuses[0].addresses, vec!["10.0.0.1/24"]);
    assert_eq!(statuses[0].mtu, Some(1420));
    assert_eq!((statuses[0].rx_bytes, statuses[0].tx_bytes), (10, 20));
    assert_eq!(statuses[0].peers.len(), 1);
    assert_eq!(statuses[1].name, "wg1");
    assert!(!statuses[1].running);
    assert!(statuses[1].public_key.is_empty());
    assert_eq!(statuses[1].listen_port, 0);

    let without_listing = interface_statuses(Vec::new(), Vec::new(), Vec::new(), None);
    assert!(without_listing.is_empty());
}

#[test]
fn status_all_merges_dump_and_configurations() {
    let host = InMemoryHost {
        dump: "wg0\tPRIV\tPUB\t51820\toff\n".to_string(),
        ..Default::default()
    };
    host.configurations
        .borrow_mut()
        .insert("wg2.conf".to_string(), String::new());
    host.configurations
        .borrow_mut()
        .insert("wg0.conf".to_string(), String::new());
    let statuses = WireGuard::new(host).status_all().unwrap();
    let names: Vec<(&str, bool)> = statuses
        .iter()
        .map(|status| (status.name.as_str(), status.running))
        .collect();
    assert_eq!(names, vec![("wg0", true), ("wg2", false)]);

    let bad = InMemoryHost {
        dump: "bad/name\tPRIV\tPUB\t1\toff\n".to_string(),
        ..Default::default()
    };
    assert_eq!(
        WireGuard::new(bad).status_all().unwrap_err(),
        "非法接口名: \"bad/name\""
    );
}

#[test]
fn interface_actions_validate_and_require_a_running_interface_to_sync() {
    let wireguard = WireGuard::new(InMemoryHost::default());
    assert_eq!(
        wireguard.interface_action("wg0", InterfaceAction::Sync),
        Err("接口 wg0 未运行，无法热同步".to_string())
    );
    wireguard.interface_action("wg0", InterfaceAction::Up).unwrap();
    wireguard.interface_action("wg0", InterfaceAction::Sync).unwrap();
    assert!(wireguard.interface_action("w g", InterfaceAction::Up).is_err());
}

#[test]
fn runtime_only_peers_skip_the_configuration() {
    let wireguard = WireGuard::new(InMemoryHost::default());
    let peers = vec![PeerConf {
        public_key: "K".to_string(),
        ..Default::default()
    }];
    let outcome = wireguard
        .apply_peers("wg0", &peers, ApplyMode::RuntimeOnly)
        .unwrap();
    assert_eq!(outcome, ApplyOutcome::runtime());
    let applied = wireguard.host_ref().applied_peers.borrow();
    assert_eq!(applied[0], ("wg0".to_string(), "[Peer]\nPublicKey = K\n".to_string()));
    assert!(wireguard.host_ref().configurations.borrow().is_empty());
}

#[test]
fn configuration_io_checks_names_first() {
    let wireguard = WireGuard::new(InMemoryHost::default());
    assert_eq!(
        wireguard.read_config("../passwd"),
        Err("非法配置文件名: \"../passwd\"".to_string())
    );
    assert_eq!(
        wireguard.apply_config("x.txt", "[Interface]\n", false),
        Err("非法配置文件名: \"x.txt\"".to_string())
    );
    assert_eq!(
        wireguard.export_config("wg0.conf", "/tmp/wg0.conf", "/home/alice"),
        Err("导出路径必须位于当前用户主目录内".to_string())
    );
    assert_eq!(
        wireguard.apply_peers("bad name", &[], ApplyMode::RuntimeOnly),
        Err("非法接口名: \"bad name\"".to_string())
    );
    let saved = wireguard.apply_config("wg0.conf", "[Interface]\n", false).unwrap();
    assert_eq!(saved, ApplyOutcome::persisted());
    assert_eq!(wireguard.read_config("wg0.conf").unwrap(), "[Interface]\n");
    let offline = wireguard.apply_config("wg0.conf", "[Interface]\n", true).unwrap();
    assert_eq!(offline.warnings, vec!["接口 wg0 未运行，配置已保存"]);
}

#[test]
fn keys_come_from_the_host() {
    let wireguard = WireGuard::new(InMemoryHost::default());
    let pair = wireguard.generate_keypair().unwrap();
    assert_eq!(pair.private_key, "private");
    assert_eq!(pair.public_key, "public");
    assert_eq!(wireguard.generate_preshared_key().unwrap(), "preshared");
}

#[test]
fn dot_names_are_not_interfaces() {
    assert_eq!(validate_iface_name("."), Err("非法接口名: \".\"".to_string()));
    assert_eq!(validate_iface_name(".."), Err("非法接口名: \"..\"".to_string()));
    assert!(validate_iface_name("...").is_ok());
    assert!(validate_iface_name(".wg").is_ok());
    let bad = InMemoryHost {
        dump: "..\tPRIV\tPUB\t1\toff\n".to_string(),
        ..Default::default()
    };
    assert_eq!(
        WireGuard::new(bad).status_all().unwrap_err(),
        "非法接口名: \"..\""
    );
    assert!(WireGuard::new(InMemoryHost::default())
        .interface_action("..", InterfaceAction::Up)
        .is_err());
}

#[test]
fn dump_decisions_follow_the_first_failure() {
    assert_eq!(
        interfaces_from_dump(Err("no wg".to_string())).unwrap_err(),
        "no wg"
    );
    assert_eq!(
        interfaces_from_dump(Ok("lonely\n".to_string())).unwrap_err(),
        "dump 第 1 行字段不足: \"lonely\""
    );
    assert_eq!(
        interfaces_from_dump(Ok("wg0\tP\tQ\t1\toff\nb/c\tP\tQ\t1\toff\nd e\tP\tQ\t1\toff\n".to_string()))
            .unwrap_err(),
        "非法接口名: \"b/c\""
    );
    let ok = interfaces_from_dump(Ok("wg0\tP\tQ\t1\toff\n".to_string())).unwrap();
    assert_eq!(ok[0].name, "wg0");
}

#[test]
fn sync_is_refused_only_when_not_running() {
    assert_eq!(
        sync_refusal("wg0", false),
        Some("接口 wg0 未运行，无法热同步".to_string())
    );
    assert_eq!(sync_refusal("wg0", true), None);
}

#[test]
fn key_pairs_keep_each_key_in_its_place() {
    let pair = key_pair("PRIV".to_string(), Ok("PUB".to_string())).unwrap();
    assert_eq!(pair.private_key, "PRIV");
    assert_eq!(pair.public_key, "PUB");
    assert_eq!(
        key_pair("PRIV".to_string(), Err("pubkey failed".to_string())),
        Err("pubkey failed".to_string())
    );
}

#[test]
fn peers_are_replaced_and_interface_kept() {
    let saved = parse_conf(
        "[Interface]\nAddress = 10.0.0.1/24\n[Peer]\nPublicKey = A\nX = 1\n[Peer]\nPublicKey = B\n",
    )
    .unwrap();
    let next = with_kept_extras(
        saved,
        &[PeerConf {
            public_key: "A".to_string(),
            ..Default::default()
        }],
    );
    assert_eq!(next.interface.address, vec!["10.0.0.1/24"]);
    assert_eq!(next.peers.len(), 1);
    assert_eq!(next.peers[0].extras, vec![("X".to_string(), "1".to_string())]);
}

#[test]
fn export_layout_names_directories_and_file() {
    assert_eq!(
        export_layout("/home/alice/a/./b//wg0.conf", "/home/alice/"),
        Ok((vec!["a".to_string(), "b".to_string()], "wg0.conf".to_string()))
    );
    assert_eq!(
        export_layout("/home/alice/wg0.conf", "/home/alice"),
        Ok((Vec::new(), "wg0.conf".to_string()))
    );
    assert_eq!(
        export_layout("/etc/wg0.conf", "/home/alice"),
        Err("导出路径必须位于当前用户主目录内".to_string())
    );
    assert_eq!(
        export_layout("/home/alice", "/home/alice"),
        Err("导出路径缺少文件名".to_string())
    );
    assert_eq!(
        export_layout("/home/alice/x/..", "/home/alice"),
        Err("导出路径缺少文件名".to_string())
    );
    assert_eq!(
        export_layout("/home/alice/../x", "/home/alice"),
        Err("导出路径包含非法目录".to_string())
    );
}
