use std::cell::RefCell;
use std::collections::VecDeque;

use wireguard_gui::host::{
    listed_names, parse_interface_details, sysfs_counter, trimmed_output, CommandRunner,
    InterfaceAction, LinuxHost, WireGuardHost, INSTALL_BIN, WG_BIN, WG_QUICK_BIN,
};
use wireguard_gui::host::{run_failure_message, exit_label_text};
use wireguard_gui::host::{export_step, ExportEntry, ExportStep};
use wireguard_gui::host::{
    details_invocation, dump_invocation, genkey_invocation, genpsk_invocation, lifecycle_invocation,
    listing_invocation, pubkey_invocation, read_config_invocation, set_peers_invocation,
    write_config_invocation,
};

#[derive(Clone, Debug, PartialEq, Eq)]
struct Call {
    privileged: bool,
    program: String,
    args: Vec<String>,
    stdin: Option<Vec<u8>>,
}

#[derive(Default)]
struct RecordingRunner {
    calls: RefCell<Vec<Call>>,
    outputs: RefCell<VecDeque<Result<Vec<u8>, String>>>,
    files: RefCell<Vec<(String, String)>>,
    exports: RefCell<Vec<(String, String, String)>>,
}

impl RecordingRunner {
    fn with_outputs(outputs: Vec<Result<Vec<u8>, String>>) -> Self {
        Self {
            outputs: RefCell::new(outputs.into()),
            ..Default::default()
        }
    }
}

impl CommandRunner for RecordingRunner {
    fn run(
        &self,
        privileged: bool,
        program: &str,
        args: &[&str],
        stdin: Option<&[u8]>,
    ) -> Result<Vec<u8>, String> {
        self.calls.borrow_mut().push(Call {
            privileged,
            program: program.to_string(),
            args: args.iter().map(|arg| (*arg).to_string()).collect(),
            stdin: stdin.map(|value| value.to_vec()),
        });
        self.outputs
            .borrow_mut()
            .pop_front()
            .unwrap_or(Ok(Vec::new()))
    }

    fn read_text(&self, path: &str) -> Option<String> {
        self.files
            .borrow()
            .iter()
            .find(|(name, _)| name == path)
            .map(|(_, text)| text.clone())
    }

    fn path_exists(&self, path: &str) -> bool {
        self.files.borrow().iter().any(|(name, _)| name == path)
    }

    fn write_export(&self, destination: &str, home: &str, content: &str) -> Result<(), String> {
        self.exports.borrow_mut().push((
            destination.to_string(),
            home.to_string(),
            content.to_string(),
        ));
        Ok(())
    }
}

#[test]
fn sync_strips_wg_quick_configuration_before_syncconf() {
    let runner = RecordingRunner::with_outputs(vec![
        Ok(b"[Interface]\nListenPort = 51820\n".to_vec()),
        Ok(Vec::new()),
    ]);
    let host = LinuxHost::with_runner(runner);

    host.apply_interface("wg0", InterfaceAction::Sync).unwrap();

    let calls = host.runner_ref().calls.borrow();
    assert_eq!(calls.len(), 2);
    assert_eq!(calls[0].program, WG_QUICK_BIN);
    assert_eq!(calls[0].args, ["strip".to_string(), "wg0".to_string()]);
    assert_eq!(calls[1].program, WG_BIN);
    assert_eq!(
        calls[1].args,
        [
            "syncconf".to_string(),
            "wg0".to_string(),
            "/dev/stdin".to_string(),
        ]
    );
    assert_eq!(
        calls[1].stdin.as_deref(),
        Some(b"[Interface]\nListenPort = 51820\n".as_slice())
    );
}

#[test]
fn configuration_write_is_one_privileged_install_with_stdin() {
    let host = LinuxHost::with_runner(RecordingRunner::default());

    host.write_config("wg0.conf", "secret-config").unwrap();

    let calls = host.runner_ref().calls.borrow();
    assert_eq!(calls.len(), 1);
    assert!(calls[0].privileged);
    assert_eq!(calls[0].program, INSTALL_BIN);
    assert_eq!(
        calls[0].args,
        [
            "-m".to_string(),
            "600".to_string(),
            "-D".to_string(),
            "/dev/stdin".to_string(),
            "/etc/wireguard/wg0.conf".to_string(),
        ]
    );
    assert_eq!(calls[0].stdin.as_deref(), Some(b"secret-config".as_slice()));
}

#[test]
fn private_key_only_crosses_the_runner_via_stdin() {
    let runner = RecordingRunner::with_outputs(vec![Ok(b"public-key\n".to_vec())]);
    let host = LinuxHost::with_runner(runner);

    let public_key = host.derive_public_key("private-key").unwrap();

    assert_eq!(public_key, "public-key");
    let calls = host.runner_ref().calls.borrow();
    assert_eq!(calls[0].args, ["pubkey".to_string()]);
    assert!(!calls[0].args.iter().any(|arg| arg.contains("private-key")));
    assert_eq!(calls[0].stdin.as_deref(), Some(b"private-key".as_slice()));
}

#[test]
fn restart_runs_down_then_up_and_stops_on_failure() {
    let host = LinuxHost::with_runner(RecordingRunner::default());
    host.apply_interface("wg0", InterfaceAction::Restart).unwrap();
    {
        let calls = host.runner_ref().calls.borrow();
        assert_eq!(calls.len(), 2);
        assert_eq!(calls[0].args, ["down".to_string(), "wg0".to_string()]);
        assert_eq!(calls[1].args, ["up".to_string(), "wg0".to_string()]);
        assert!(calls.iter().all(|call| call.privileged && call.program == WG_QUICK_BIN));
    }

    let failing = LinuxHost::with_runner(RecordingRunner::with_outputs(vec![Err(
        "down failed".to_string(),
    )]));
    assert_eq!(
        failing.apply_interface("wg0", InterfaceAction::Restart),
        Err("down failed".to_string())
    );
    assert_eq!(failing.runner_ref().calls.borrow().len(), 1);
}

#[test]
fn peers_are_set_through_stdin() {
    let host = LinuxHost::with_runner(RecordingRunner::default());
    host.set_peers("wg0", "[Peer]\nPublicKey = K\n").unwrap();
    let calls = host.runner_ref().calls.borrow();
    assert_eq!(calls[0].program, WG_BIN);
    assert_eq!(
        calls[0].args,
        ["setconf".to_string(), "wg0".to_string(), "/dev/stdin".to_string()]
    );
    assert_eq!(calls[0].stdin.as_deref(), Some(b"[Peer]\nPublicKey = K\n".as_slice()));
}

#[test]
fn host_reads_listing_dump_and_configuration_text() {
    let host = LinuxHost::with_runner(RecordingRunner::with_outputs(vec![
        Ok(b"wg1.conf\n\n  wg0.conf \nnotes.txt\n".to_vec()),
        Ok(b"wg0\tK\tP\t1\toff\n".to_vec()),
        Ok(b"[Interface]\n".to_vec()),
    ]));
    assert_eq!(
        host.list_config_names().unwrap(),
        vec!["wg1.conf", "wg0.conf", "notes.txt"]
    );
    assert_eq!(host.show_all_dump().unwrap(), "wg0\tK\tP\t1\toff\n");
    assert_eq!(host.read_config("wg0.conf").unwrap(), "[Interface]\n");
    let calls = host.runner_ref().calls.borrow();
    assert_eq!(calls[0].args, ["-1".to_string(), "/etc/wireguard".to_string()]);
    assert_eq!(
        calls[1].args,
        ["show".to_string(), "all".to_string(), "dump".to_string()]
    );
    assert_eq!(calls[2].args, ["/etc/wireguard/wg0.conf".to_string()]);
}

#[test]
fn interface_counters_and_presence_come_from_sysfs() {
    let runner = RecordingRunner::default();
    runner.files.borrow_mut().push((
        "/sys/class/net/wg0/statistics/rx_bytes".to_string(),
        "1234\n".to_string(),
    ));
    runner.files.borrow_mut().push((
        "/sys/class/net/wg0/statistics/tx_bytes".to_string(),
        "garbage".to_string(),
    ));
    runner
        .files
        .borrow_mut()
        .push(("/sys/class/net/wg0".to_string(), String::new()));
    let host = LinuxHost::with_runner(runner);
    assert_eq!(host.interface_stats("wg0"), (1234, 0));
    assert_eq!(host.interface_stats("wg9"), (0, 0));
    assert!(host.interface_exists("wg0"));
    assert!(!host.interface_exists("wg9"));
}

#[test]
fn export_reads_the_configuration_then_hands_it_over() {
    let host = LinuxHost::with_runner(RecordingRunner::with_outputs(vec![Ok(
        b"[Interface]\nPrivateKey = X\n".to_vec(),
    )]));
    host.export_config("wg0.conf", "/home/alice/wg0.conf", "/home/alice")
        .unwrap();
    let exports = host.runner_ref().exports.borrow();
    assert_eq!(
        exports[0],
        (
            "/home/alice/wg0.conf".to_string(),
            "/home/alice".to_string(),
            "[Interface]\nPrivateKey = X\n".to_string()
        )
    );
}

#[test]
fn interface_details_come_from_ip_json() {
    let json = br#"[{"ifindex":5,"ifname":"wg0","mtu":1420,"addr_info":[{"family":"inet","local":"10.0.0.1","prefixlen":24},{"family":"inet6"},{"local":"fd00::1","prefixlen":64}]}]"#;
    let details = parse_interface_details(json);
    assert_eq!(details.mtu, Some(1420));
    assert_eq!(details.addresses, vec!["10.0.0.1/24", "fd00::1/64"]);

    let host = LinuxHost::with_runner(RecordingRunner::with_outputs(vec![Ok(json.to_vec())]));
    let through_host = host.interface_details("wg0");
    assert_eq!(through_host, details);
    assert_eq!(
        host.runner_ref().calls.borrow()[0].args,
        ["-j", "addr", "show", "dev", "wg0"]
    );
    assert!(!host.runner_ref().calls.borrow()[0].privileged);
}

#[test]
fn unreadable_ip_output_gives_empty_details() {
    let outputs: [&[u8]; 4] = [b"not json", b"{}", b"[]", br#"[{"mtu":"big"}]"#];
    for output in outputs {
        let details = parse_interface_details(output);
        assert!(details.addresses.is_empty());
        assert_eq!(details.mtu, None);
    }
    let host = LinuxHost::with_runner(RecordingRunner::with_outputs(vec![Err("no ip".into())]));
    assert!(host.interface_details("wg0").addresses.is_empty());
}

#[test]
fn program_output_is_decoded_and_trimmed() {
    assert_eq!(trimmed_output(b"  key=\n"), "key=");
    assert_eq!(trimmed_output(b"\xffkey"), "\u{fffd}key");
    assert_eq!(
        listed_names(b" a.conf \r\n\n\tb.conf"),
        vec!["a.conf".to_string(), "b.conf".to_string()]
    );
    assert_eq!(sysfs_counter(Some(" 42\n".to_string())), 42);
    assert_eq!(sysfs_counter(Some("-1".to_string())), 0);
    assert_eq!(sysfs_counter(Some("18446744073709551616".to_string())), 0);
    assert_eq!(sysfs_counter(None), 0);
}

#[test]
fn keys_are_generated_without_privileges() {
    let host = LinuxHost::with_runner(RecordingRunner::with_outputs(vec![
        Ok(b"PRIVATE\n".to_vec()),
        Ok(b"PSK\n".to_vec()),
    ]));
    assert_eq!(host.generate_private_key().unwrap(), "PRIVATE");
    assert_eq!(host.generate_preshared_key().unwrap(), "PSK");
    let calls = host.runner_ref().calls.borrow();
    assert_eq!(calls[0].args, ["genkey".to_string()]);
    assert_eq!(calls[1].args, ["genpsk".to_string()]);
    assert!(calls.iter().all(|call| !call.privileged && call.stdin.is_none()));
}

#[test]
fn failed_programs_are_reported_with_code_and_stderr() {
    assert_eq!(
        run_failure_message("/usr/bin/wg", Some(1), b"  Unable to access interface\n"),
        "/usr/bin/wg 失败（exit 1）: Unable to access interface"
    );
    assert_eq!(
        run_failure_message("/usr/bin/wg", Some(-3), b" \n"),
        "/usr/bin/wg 失败（exit -3）"
    );
    assert_eq!(run_failure_message("ls", None, b""), "ls 失败（exit signal）");
    assert_eq!(exit_label_text(Some(i32::MIN)), "-2147483648");
    assert_eq!(exit_label_text(Some(126)), "126");
}

#[test]
fn export_walk_refuses_links_and_files() {
    assert_eq!(export_step(ExportEntry::Directory), Ok(ExportStep::Descend));
    assert_eq!(export_step(ExportEntry::Missing), Ok(ExportStep::Create));
    assert_eq!(
        export_step(ExportEntry::Symlink),
        Err("导出路径包含符号链接目录".to_string())
    );
    assert_eq!(
        export_step(ExportEntry::NotDirectory),
        Err("导出路径包含非目录项".to_string())
    );
    assert_eq!(
        export_step(ExportEntry::Unreadable("permission denied".to_string())),
        Err("检查导出目录失败: permission denied".to_string())
    );
}

#[test]
fn invocations_fix_program_arguments_and_stdin() {
    let write = write_config_invocation("wg0.conf", "secret");
    assert!(write.privileged);
    assert_eq!(write.program, INSTALL_BIN);
    assert_eq!(write.args, ["-m", "600", "-D", "/dev/stdin", "/etc/wireguard/wg0.conf"]);
    assert_eq!(write.stdin.as_deref(), Some(b"secret".as_slice()));

    let pubkey = pubkey_invocation("private-key");
    assert!(!pubkey.privileged);
    assert_eq!(pubkey.args, ["pubkey"]);
    assert_eq!(pubkey.stdin.as_deref(), Some(b"private-key".as_slice()));

    let peers = set_peers_invocation("wg0", "[Peer]\n");
    assert_eq!(peers.args, ["setconf", "wg0", "/dev/stdin"]);
    assert_eq!(peers.stdin.as_deref(), Some(b"[Peer]\n".as_slice()));

    assert_eq!(dump_invocation().args, ["show", "all", "dump"]);
    assert_eq!(listing_invocation().args, ["-1", "/etc/wireguard"]);
    assert_eq!(read_config_invocation("wg0.conf").args, ["/etc/wireguard/wg0.conf"]);
    assert_eq!(details_invocation("wg0").args, ["-j", "addr", "show", "dev", "wg0"]);
    assert_eq!(genkey_invocation().args, ["genkey"]);
    assert_eq!(genpsk_invocation().args, ["genpsk"]);
}

#[test]
fn lifecycle_steps_come_in_order() {
    let none: Vec<Vec<u8>> = Vec::new();
    let one = vec![b"stripped".to_vec()];
    let two = vec![Vec::new(), Vec::new()];
    let up = lifecycle_invocation("wg0", InterfaceAction::Up, &none).unwrap();
    assert_eq!((up.program.as_str(), up.args.clone()), (WG_QUICK_BIN, vec!["up".to_string(), "wg0".to_string()]));
    assert!(lifecycle_invocation("wg0", InterfaceAction::Up, &one).is_none());
    let down = lifecycle_invocation("wg0", InterfaceAction::Restart, &none).unwrap();
    assert_eq!(down.args, ["down", "wg0"]);
    let again = lifecycle_invocation("wg0", InterfaceAction::Restart, &one).unwrap();
    assert_eq!(again.args, ["up", "wg0"]);
    assert!(lifecycle_invocation("wg0", InterfaceAction::Restart, &two).is_none());
    let strip = lifecycle_invocation("wg0", InterfaceAction::Sync, &none).unwrap();
    assert_eq!(strip.args, ["strip", "wg0"]);
    let sync = lifecycle_invocation("wg0", InterfaceAction::Sync, &one).unwrap();
    assert_eq!(sync.program, WG_BIN);
    assert_eq!(sync.args, ["syncconf", "wg0", "/dev/stdin"]);
    assert_eq!(sync.stdin.as_deref(), Some(b"stripped".as_slice()));
    assert!(sync.privileged && strip.privileged);
}
