use std::cell::RefCell;

use wireguard_gui::elevate::{read_file, wg, wg_quick, write_file, CHMOD_BIN, TEE_BIN};
use wireguard_gui::host::{CommandRunner, CAT_BIN, WG_BIN, WG_QUICK_BIN};
use wireguard_gui::ops::linux;
use wireguard_gui::elevate::pkexec_failure_message;
use wireguard_gui::elevate::{
    chmod_invocation, read_file_invocation, tee_invocation, wg_invocation, wg_quick_invocation,
};

#[derive(Default)]
struct Recorder {
    calls: RefCell<Vec<(bool, String, Vec<String>, Option<Vec<u8>>)>>,
    fail: bool,
}

impl CommandRunner for Recorder {
    fn run(
        &self,
        privileged: bool,
        program: &str,
        args: &[&str],
        stdin: Option<&[u8]>,
    ) -> Result<Vec<u8>, String> {
        self.calls.borrow_mut().push((
            privileged,
            program.to_string(),
            args.iter().map(|arg| arg.to_string()).collect(),
            stdin.map(|bytes| bytes.to_vec()),
        ));
        if self.fail {
            Err("denied".to_string())
        } else {
            Ok(b"out\n".to_vec())
        }
    }

    fn read_text(&self, _path: &str) -> Option<String> {
        None
    }

    fn path_exists(&self, _path: &str) -> bool {
        false
    }

    fn write_export(&self, _destination: &str, _home: &str, _content: &str) -> Result<(), String> {
        Ok(())
    }
}

#[test]
fn privileged_wrappers_run_the_right_programs() {
    let runner = Recorder::default();
    assert_eq!(wg(&runner, &["show"], Some(b"key")).unwrap(), b"out\n".to_vec());
    wg_quick(&runner, &["up", "wg0"]).unwrap();
    assert_eq!(read_file(&runner, "/etc/wireguard/wg0.conf").unwrap(), "out\n");
    let calls = runner.calls.borrow();
    assert_eq!(
        calls[0],
        (true, WG_BIN.to_string(), vec!["show".to_string()], Some(b"key".to_vec()))
    );
    assert_eq!(
        calls[1],
        (true, WG_QUICK_BIN.to_string(), vec!["up".to_string(), "wg0".to_string()], None)
    );
    assert_eq!(
        calls[2],
        (true, CAT_BIN.to_string(), vec!["/etc/wireguard/wg0.conf".to_string()], None)
    );
}

#[test]
fn file_writes_go_through_stdin_then_set_the_mode() {
    let runner = Recorder::default();
    write_file(&runner, "/etc/wireguard/wg0.conf", "secret", Some("600")).unwrap();
    write_file(&runner, "/tmp/x", "plain", None).unwrap();
    let calls = runner.calls.borrow();
    assert_eq!(calls.len(), 3);
    assert_eq!(
        calls[0],
        (
            true,
            TEE_BIN.to_string(),
            vec!["/etc/wireguard/wg0.conf".to_string()],
            Some(b"secret".to_vec())
        )
    );
    assert_eq!(
        calls[1],
        (
            true,
            CHMOD_BIN.to_string(),
            vec!["600".to_string(), "/etc/wireguard/wg0.conf".to_string()],
            None
        )
    );
    assert_eq!(calls[2].1, TEE_BIN);
    assert!(!calls.iter().any(|call| call.2.iter().any(|arg| arg.contains("secret"))));
}

#[test]
fn failed_write_does_not_set_the_mode() {
    let runner = Recorder {
        fail: true,
        ..Default::default()
    };
    assert_eq!(
        write_file(&runner, "/etc/x", "y", Some("600")),
        Err("denied".to_string())
    );
    assert_eq!(runner.calls.borrow().len(), 1);
    assert_eq!(wg_quick(&runner, &["down", "wg0"]), Err("denied".to_string()));
    assert_eq!(read_file(&runner, "/etc/x"), Err("denied".to_string()));
}

#[test]
fn linux_module_drives_the_given_runner() {
    let wireguard = linux(Recorder::default());
    assert_eq!(wireguard.generate_preshared_key().unwrap(), "out");
    assert_eq!(wireguard.host_ref().runner_ref().calls.borrow()[0].1, WG_BIN);
}

#[test]
fn pkexec_failures_name_the_exit_code() {
    assert_eq!(
        pkexec_failure_message(Some(126), b"Not authorized\n"),
        "命令失败（exit 126）: Not authorized"
    );
    assert_eq!(pkexec_failure_message(None, b""), "命令失败（exit signal）");
}

#[test]
fn elevated_invocations_keep_content_off_the_command_line() {
    let tee = tee_invocation("/etc/x", "secret");
    assert_eq!(tee.program, TEE_BIN);
    assert_eq!(tee.args, ["/etc/x"]);
    assert_eq!(tee.stdin.as_deref(), Some(b"secret".as_slice()));
    let chmod = chmod_invocation("600", "/etc/x");
    assert_eq!(chmod.args, ["600", "/etc/x"]);
    assert!(chmod.stdin.is_none());
    let cat = read_file_invocation("/etc/x");
    assert_eq!((cat.program.as_str(), cat.args.clone()), (CAT_BIN, vec!["/etc/x".to_string()]));
    let wg_call = wg_invocation(&["show"], Some(b"k"));
    assert!(wg_call.privileged);
    assert_eq!(wg_call.stdin.as_deref(), Some(b"k".as_slice()));
    let quick = wg_quick_invocation(&["up", "wg0"]);
    assert_eq!(quick.program, WG_QUICK_BIN);
    assert!(quick.stdin.is_none());
}
