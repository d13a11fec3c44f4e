//! Privileged operations: every `wg`, `wg-quick` and file operation that needs root
//! runs through pkexec (the polkit prompt). Keys and file contents travel on standard
//! input only, never on the command line, where `/proc` would show them.

use vstd::prelude::*;
use vstd::utf8::encode_utf8;
use crate::host::{
    bytes_result, decoded, text_result, unit_of, unit_result, append_stderr, args_view, exit_label, exit_label_text, invocation, make_invocation, output_text,
    pubkey_call, run_with, set_peers_call, stdin_view, with_stderr, write_config_call, CommandRunner, Invocation, InvocationModel, CAT_BIN, WG_BIN,
    WG_QUICK_BIN,
};
use crate::text::push_str;

verus! {

/// `tee`, which writes its standard input to a file.
pub const TEE_BIN: &'static str = "/usr/bin/tee";

/// `chmod`, which sets a file's mode.
pub const CHMOD_BIN: &'static str = "/usr/bin/chmod";

/// How a pkexec command that ran but failed is reported.
pub open spec fn pkexec_failure_text(code: Option<i32>, stderr: Seq<char>) -> Seq<char> {
    with_stderr("命令失败（exit "@ + exit_label(code) + "）"@, stderr)
}

/// The message for a pkexec command ending with exit status `code` after printing
/// `stderr`.
pub fn pkexec_failure_message(code: Option<i32>, stderr: &[u8]) -> (r: String)
    ensures
        r@ == pkexec_failure_text(code, output_text(stderr@)),
{
    let mut head = String::new();
    push_str(&mut head, "命令失败（exit ");
    let label = exit_label_text(code);
    push_str(&mut head, label.as_str());
    push_str(&mut head, "）");
    append_stderr(head, stderr)
}

/// `wg` with these arguments and standard input, with root rights.
pub open spec fn wg_call(args: Seq<Seq<char>>, stdin: Option<Seq<u8>>) -> InvocationModel {
    invocation(true, WG_BIN@, args, stdin)
}

pub fn wg_invocation(args: &[&str], stdin: Option<&[u8]>) -> (r: Invocation)
    ensures
        r@ == wg_call(args_view(args@), stdin_view(stdin)),
{
    make_invocation(true, WG_BIN, args, stdin)
}

/// `wg-quick` with these arguments and nothing on standard input, with root rights.
pub open spec fn wg_quick_call(args: Seq<Seq<char>>) -> InvocationModel {
    invocation(true, WG_QUICK_BIN@, args, None)
}

pub fn wg_quick_invocation(args: &[&str]) -> (r: Invocation)
    ensures
        r@ == wg_quick_call(args_view(args@)),
{
    make_invocation(true, WG_QUICK_BIN, args, None)
}

/// `cat <path>`, with root rights.
pub open spec fn read_file_call(path: Seq<char>) -> InvocationModel {
    invocation(true, CAT_BIN@, seq![path], None)
}

pub fn read_file_invocation(path: &str) -> (r: Invocation)
    ensures
        r@ == read_file_call(path@),
{
    let r = make_invocation(true, CAT_BIN, &[path], None);
    assert(r@ =~= read_file_call(path@));
    r
}

/// `tee <path>`, with root rights and the content on standard input only.
pub open spec fn tee_call(path: Seq<char>, content: Seq<char>) -> InvocationModel {
    invocation(true, TEE_BIN@, seq![path], Some(encode_utf8(content)))
}

pub fn tee_invocation(path: &str, content: &str) -> (r: Invocation)
    ensures
        r@ == tee_call(path@, content@),
{
    let r = make_invocation(true, TEE_BIN, &[path], Some(content.as_bytes()));
    assert(r@ =~= tee_call(path@, content@));
    r
}

/// `chmod <mode> <path>`, with root rights.
pub open spec fn chmod_call(mode: Seq<char>, path: Seq<char>) -> InvocationModel {
    invocation(true, CHMOD_BIN@, seq![mode, path], None)
}

pub fn chmod_invocation(mode: &str, path: &str) -> (r: Invocation)
    ensures
        r@ == chmod_call(mode@, path@),
{
    let r = make_invocation(true, CHMOD_BIN, &[mode, path], None);
    assert(r@ =~= chmod_call(mode@, path@));
    r
}

/// Keys, configurations and file contents reach programs on standard input only: the
/// command line of each invocation that carries one is the same whatever it carries,
/// and what it carries is exactly what standard input gets.
pub proof fn lemma_secrets_travel_on_stdin_only(
    name: Seq<char>,
    path: Seq<char>,
    secret: Seq<char>,
    other: Seq<char>,
)
    ensures
        pubkey_call(secret).args == pubkey_call(other).args,
        pubkey_call(secret).stdin == Some(encode_utf8(secret)),
        write_config_call(name, secret).args == write_config_call(name, other).args,
        write_config_call(name, secret).stdin == Some(encode_utf8(secret)),
        set_peers_call(name, secret).args == set_peers_call(name, other).args,
        set_peers_call(name, secret).stdin == Some(encode_utf8(secret)),
        tee_call(path, secret).args == tee_call(path, other).args,
        tee_call(path, secret).stdin == Some(encode_utf8(secret)),
{
}

/// Runs `wg` with root rights (`wg_call`); its standard output.
pub fn wg<R: CommandRunner>(runner: &R, args: &[&str], stdin: Option<&[u8]>) -> (r: Result<
    Vec<u8>,
    String,
>)
    ensures
        runner.ran(wg_call(args_view(args@), stdin_view(stdin)), bytes_result(r)),
{
    run_with(runner, &wg_invocation(args, stdin))
}

/// Runs `wg-quick` with root rights (`wg_quick_call`).
pub fn wg_quick<R: CommandRunner>(runner: &R, args: &[&str]) -> (r: Result<(), String>)
    ensures
        exists|raw: Result<Seq<u8>, Seq<char>>|
            runner.ran(wg_quick_call(args_view(args@)), raw) && unit_result(r) == unit_of(raw),
{
    let raw = run_with(runner, &wg_quick_invocation(args));
    let ghost rv = bytes_result(raw);
    let r = match raw {
        Ok(_) => Ok(()),
        Err(e) => Err(e),
    };
    assert(runner.ran(wg_quick_call(args_view(args@)), rv) && unit_result(r) == unit_of(rv));
    r
}

/// Reads a file with root rights (`read_file_call`); its text, as `from_utf8_lossy`
/// decodes it.
pub fn read_file<R: CommandRunner>(runner: &R, path: &str) -> (r: Result<String, String>)
    ensures
        exists|raw: Result<Seq<u8>, Seq<char>>|
            runner.ran(read_file_call(path@), raw) && text_result(r) == decoded(raw),
{
    let raw = run_with(runner, &read_file_invocation(path));
    let ghost rv = bytes_result(raw);
    let r = match raw {
        Ok(out) => Ok(crate::host::output_string(out.as_slice())),
        Err(e) => Err(e),
    };
    assert(runner.ran(read_file_call(path@), rv) && text_result(r) == decoded(rv));
    r
}

/// Writes `content` to a file with root rights (`tee_call`, the content on standard
/// input), then sets its mode when one is given (`chmod_call`). A failed write stops
/// before the mode is set.
pub fn write_file<R: CommandRunner>(runner: &R, path: &str, content: &str, mode: Option<&str>) -> (r:
    Result<(), String>)
    ensures
        exists|written: Result<Seq<u8>, Seq<char>>|
            runner.ran(tee_call(path@, content@), written) && match written {
                Err(e) => unit_result(r) == Err::<(), Seq<char>>(e),
                Ok(_) => match mode {
                    None => r is Ok,
                    Some(m) => exists|chmod: Result<Seq<u8>, Seq<char>>|
                        runner.ran(chmod_call(m@, path@), chmod) && unit_result(r) == unit_of(
                            chmod,
                        ),
                },
            },
{
    let written = run_with(runner, &tee_invocation(path, content));
    let ghost wv = bytes_result(written);
    match written {
        Ok(_) => {},
        Err(e) => {
            assert(runner.ran(tee_call(path@, content@), wv));
            return Err(e);
        },
    }
    assert(runner.ran(tee_call(path@, content@), wv));
    match mode {
        Some(m) => {
            let chmod = run_with(runner, &chmod_invocation(m, path));
            let ghost cv = bytes_result(chmod);
            let r = match chmod {
                Ok(_) => Ok(()),
                Err(e) => Err(e),
            };
            assert(runner.ran(chmod_call(m@, path@), cv) && unit_result(r) == unit_of(cv));
            r
        },
        None => Ok(()),
    }
}

} // verus!
