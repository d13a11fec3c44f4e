//! Linux host adapter: which programs run, with which arguments, with what on
//! standard input, and what their output means. Running the programs and
//! touching the file system is the `CommandRunner`'s part.

use vstd::prelude::*;
use vstd::utf8::encode_utf8;
use crate::text::{
    decimal, i32_to_string, lemma_split_append_plain, signed_decimal, split_char, keep_trimmed, lines, lines_of, parse_u64_chars, parse_unsigned, push_chars, push_str,
    string_from_chars, to_chars, trim, trim_slice, u64_to_string,
};
use serde_json::Value;
use crate::ops::{export_path_ok, is_name_char, normal_pieces, path_parts, safe_name, valid_conf_name, valid_iface_name};

verus! {

broadcast use vstd::string::group_string_axioms;

pub const CONF_DIR: &'static str = "/etc/wireguard";

pub const WG_BIN: &'static str = "/usr/bin/wg";

pub const WG_QUICK_BIN: &'static str = "/usr/bin/wg-quick";

pub const PKEXEC_BIN: &'static str = "/usr/bin/pkexec";

pub const IP_BIN: &'static str = "/usr/bin/ip";

pub const INSTALL_BIN: &'static str = "/usr/bin/install";

pub const CAT_BIN: &'static str = "/usr/bin/cat";

pub const LS_BIN: &'static str = "/usr/bin/ls";

#[derive(Clone, Copy, Debug, PartialEq, Eq, Structural)]
pub enum InterfaceAction {
    Up,
    Down,
    Restart,
    Sync,
}

#[derive(Clone, Debug, PartialEq, Eq)]
pub struct InterfaceDetails {
    pub addresses: Vec<String>,
    pub mtu: Option<u32>,
}

#[verifier::ext_equal]
pub struct InterfaceDetailsModel {
    pub addresses: Seq<Seq<char>>,
    pub mtu: Option<u32>,
}

impl View for InterfaceDetails {
    type V = InterfaceDetailsModel;

    open spec fn view(&self) -> InterfaceDetailsModel {
        InterfaceDetailsModel { addresses: self.addresses.deep_view(), mtu: self.mtu }
    }
}

impl Default for InterfaceDetails {
    fn default() -> (r: Self)
        ensures
            r@ == (InterfaceDetailsModel { addresses: Seq::empty(), mtu: None }),
    {
        let r = InterfaceDetails { addresses: Vec::new(), mtu: None };
        assert(r@ =~= InterfaceDetailsModel { addresses: Seq::empty(), mtu: None });
        r
    }
}

/// Where process execution and file access happen. The production runner lives with the
/// application; tests record the calls.
pub trait CommandRunner {
    /// Whether `outcome` is something that running `call` can give with this runner:
    /// what the program printed on standard output, or a message. Running the same
    /// call twice may give two outcomes. A runner that says nothing more admits every
    /// outcome, which is what the default does.
    closed spec fn ran(&self, call: InvocationModel, outcome: Result<Seq<u8>, Seq<char>>) -> bool {
        true
    }

    /// Whether reading the file `path` can give `text` (`None`: it could not be read).
    closed spec fn read(&self, path: Seq<char>, text: Option<Seq<char>>) -> bool {
        true
    }

    /// Whether looking for `path` can find that it exists (`true`) or not.
    closed spec fn found(&self, path: Seq<char>, exists: bool) -> bool {
        true
    }

    /// Whether writing `content` to `destination` inside `home` can end with `outcome`.
    closed spec fn exported(
        &self,
        destination: Seq<char>,
        home: Seq<char>,
        content: Seq<char>,
        outcome: Result<(), Seq<char>>,
    ) -> bool {
        true
    }

    /// Runs `program` with `args` (through pkexec when `privileged`), writing `stdin` to it
    /// when given; its standard output, or a message when it could not run or failed.
    fn run(&self, privileged: bool, program: &str, args: &[&str], stdin: Option<&[u8]>) -> (r:
        Result<Vec<u8>, String>)
        ensures
            self.ran(
                invocation(privileged, program@, args_view(args@), stdin_view(stdin)),
                bytes_result(r),
            ),
    ;

    /// The text of a file readable without privileges, if it can be read.
    fn read_text(&self, path: &str) -> (r: Option<String>)
        ensures
            self.read(path@, r.deep_view()),
    ;

    /// Whether `path` exists.
    fn path_exists(&self, path: &str) -> (r: bool)
        ensures
            self.found(path@, r),
    ;

    /// Writes `content` to the export destination (inside `home`, no symlinks, mode 0600).
    fn write_export(&self, destination: &str, home: &str, content: &str) -> (r: Result<(), String>)
        ensures
            self.exported(destination@, home@, content@, unit_result(r)),
    ;
}

/// The outcome of running a program: its standard output, or a message.
pub open spec fn bytes_result(r: Result<Vec<u8>, String>) -> Result<Seq<u8>, Seq<char>> {
    match r {
        Ok(v) => Ok(v@),
        Err(e) => Err(e@),
    }
}

/// The outcome of an operation that gives nothing back but may fail.
pub open spec fn unit_result(r: Result<(), String>) -> Result<(), Seq<char>> {
    match r {
        Ok(()) => Ok(()),
        Err(e) => Err(e@),
    }
}

/// An outcome that gives nothing back: the run's message, or nothing.
pub open spec fn unit_of(raw: Result<Seq<u8>, Seq<char>>) -> Result<(), Seq<char>> {
    match raw {
        Ok(_) => Ok(()),
        Err(e) => Err(e),
    }
}

/// The text a run printed, as `from_utf8_lossy` reads it, or the run's message.
pub open spec fn decoded(raw: Result<Seq<u8>, Seq<char>>) -> Result<Seq<char>, Seq<char>> {
    match raw {
        Ok(b) => Ok(output_text(b)),
        Err(e) => Err(e),
    }
}

/// The trimmed text a run printed, or the run's message: how a key is read.
pub open spec fn trimmed_of(raw: Result<Seq<u8>, Seq<char>>) -> Result<Seq<char>, Seq<char>> {
    match raw {
        Ok(b) => Ok(trim(output_text(b))),
        Err(e) => Err(e),
    }
}

pub open spec fn text_result(r: Result<String, String>) -> Result<Seq<char>, Seq<char>> {
    match r {
        Ok(t) => Ok(t@),
        Err(e) => Err(e@),
    }
}

/// Host interface used by the WireGuard module and its in-memory test adapter.
///
/// Every name the WireGuard module hands over has been validated: configuration names
/// are valid basenames, interface names are made of the safe characters only.
///
/// Each operation's result is one of the outcomes that the matching relation admits
/// for exactly the arguments it was given. An adapter that says nothing more admits
/// every outcome (the defaults); `LinuxHost` defines each relation by the programs it
/// runs and what it makes of their output.
pub trait WireGuardHost {
    /// Whether `outcome` is something `show_all_dump` can give.
    closed spec fn dumped(&self, outcome: Result<Seq<char>, Seq<char>>) -> bool {
        true
    }

    /// Whether `outcome` is something `list_config_names` can give.
    closed spec fn listed(&self, outcome: Result<Seq<Seq<char>>, Seq<char>>) -> bool {
        true
    }

    /// Whether `outcome` is something reading the configuration `name` can give.
    closed spec fn read_back(&self, name: Seq<char>, outcome: Result<Seq<char>, Seq<char>>) -> bool {
        true
    }

    /// Whether writing `content` to the configuration `name` can end with `outcome`.
    closed spec fn wrote(
        &self,
        name: Seq<char>,
        content: Seq<char>,
        outcome: Result<(), Seq<char>>,
    ) -> bool {
        true
    }

    /// Whether exporting the configuration `name` to `destination` can end with `outcome`.
    closed spec fn exported_to(
        &self,
        name: Seq<char>,
        destination: Seq<char>,
        home: Seq<char>,
        outcome: Result<(), Seq<char>>,
    ) -> bool {
        true
    }

    /// Whether `details` can be what is reported of the interface `name`.
    closed spec fn detailed(&self, name: Seq<char>, details: InterfaceDetailsModel) -> bool {
        true
    }

    /// Whether `stats` can be the byte counters reported of the interface `name`.
    closed spec fn counted(&self, name: Seq<char>, stats: (u64, u64)) -> bool {
        true
    }

    /// Whether the interface `name` can be found to run (`true`) or not.
    closed spec fn present(&self, name: Seq<char>, running: bool) -> bool {
        true
    }

    /// Whether applying `action` to the interface `name` can end with `outcome`.
    closed spec fn applied(
        &self,
        name: Seq<char>,
        action: InterfaceAction,
        outcome: Result<(), Seq<char>>,
    ) -> bool {
        true
    }

    /// Whether setting the Peers of `name` from `configuration` can end with `outcome`.
    closed spec fn peers_set(
        &self,
        name: Seq<char>,
        configuration: Seq<char>,
        outcome: Result<(), Seq<char>>,
    ) -> bool {
        true
    }

    /// Whether `outcome` is something generating a private key can give.
    closed spec fn private_key_made(&self, outcome: Result<Seq<char>, Seq<char>>) -> bool {
        true
    }

    /// Whether `outcome` is something deriving the public key of `private_key` can give.
    closed spec fn public_key_made(
        &self,
        private_key: Seq<char>,
        outcome: Result<Seq<char>, Seq<char>>,
    ) -> bool {
        true
    }

    /// Whether `outcome` is something generating a preshared key can give.
    closed spec fn preshared_key_made(&self, outcome: Result<Seq<char>, Seq<char>>) -> bool {
        true
    }

    /// The output of `wg show all dump`.
    fn show_all_dump(&self) -> (r: Result<String, String>)
        ensures
            self.dumped(text_result(r)),
    ;

    /// The names of the entries in /etc/wireguard.
    fn list_config_names(&self) -> (r: Result<Vec<String>, String>)
        ensures
            self.listed(names_result(r)),
    ;

    /// The text of the configuration file `name`.
    fn read_config(&self, name: &str) -> (r: Result<String, String>)
        requires
            valid_conf_name(name@),
        ensures
            self.read_back(name@, text_result(r)),
    ;

    /// Replaces the configuration file `name` by `content`, readable by root only.
    fn write_config(&self, name: &str, content: &str) -> (r: Result<(), String>)
        requires
            valid_conf_name(name@),
        ensures
            self.wrote(name@, content@, unit_result(r)),
    ;

    /// Copies the configuration file `name` to `destination` inside `home`.
    fn export_config(&self, name: &str, destination: &str, home: &str) -> (r: Result<(), String>)
        requires
            valid_conf_name(name@),
            export_path_ok(destination@, home@),
        ensures
            self.exported_to(name@, destination@, home@, unit_result(r)),
    ;

    /// The addresses and MTU of a running interface.
    fn interface_details(&self, name: &str) -> (r: InterfaceDetails)
        requires
            valid_iface_name(name@),
        ensures
            self.detailed(name@, r@),
    ;

    /// The received and sent byte counters of a running interface.
    fn interface_stats(&self, name: &str) -> (r: (u64, u64))
        requires
            valid_iface_name(name@),
        ensures
            self.counted(name@, r),
    ;

    /// Whether the kernel has an interface of this name.
    fn interface_exists(&self, name: &str) -> (r: bool)
        requires
            safe_name(name@),
        ensures
            self.present(name@, r),
    ;

    /// Brings an interface up or down, restarts it, or synchronizes it with its
    /// configuration file.
    fn apply_interface(&self, name: &str, action: InterfaceAction) -> (r: Result<(), String>)
        requires
            safe_name(name@),
        ensures
            self.applied(name@, action, unit_result(r)),
    ;

    /// Replaces the Peers of a running interface by those in `configuration`.
    fn set_peers(&self, name: &str, configuration: &str) -> (r: Result<(), String>)
        requires
            valid_iface_name(name@),
        ensures
            self.peers_set(name@, configuration@, unit_result(r)),
    ;

    /// A new private key.
    fn generate_private_key(&self) -> (r: Result<String, String>)
        ensures
            self.private_key_made(text_result(r)),
    ;

    /// The public key of `private_key`.
    fn derive_public_key(&self, private_key: &str) -> (r: Result<String, String>)
        ensures
            self.public_key_made(private_key@, text_result(r)),
    ;

    /// A new preshared key.
    fn generate_preshared_key(&self) -> (r: Result<String, String>)
        ensures
            self.preshared_key_made(text_result(r)),
    ;
}

pub open spec fn names_result(r: Result<Vec<String>, String>) -> Result<Seq<Seq<char>>, Seq<char>> {
    match r {
        Ok(v) => Ok(v.deep_view()),
        Err(e) => Err(e@),
    }
}

/// The non-empty trimmed lines that a listing printed, or the run's message.
pub open spec fn listing_of(raw: Result<Seq<u8>, Seq<char>>) -> Result<Seq<Seq<char>>, Seq<char>> {
    match raw {
        Ok(b) => Ok(keep_trimmed(lines(output_text(b)))),
        Err(e) => Err(e),
    }
}

/// The details in what `ip -j addr` printed; none when it failed.
pub open spec fn details_from_run(raw: Result<Seq<u8>, Seq<char>>) -> InterfaceDetailsModel {
    match raw {
        Ok(b) => details_of(ip_addr_entries(b)),
        Err(_) => details_of(None),
    }
}

/// `/sys/class/net/<name><tail>`.
pub open spec fn net_path_of(name: Seq<char>, tail: Seq<char>) -> Seq<char> {
    "/sys/class/net/"@ + name + tail
}

/// Whether `outcome` can end the lifecycle action after the runs whose outputs are
/// `outputs`: each further run is the one `lifecycle_call` names, a failed run ends
/// the action with its message, and the action succeeds once no run is left.
pub open spec fn lifecycle_outcome<R: CommandRunner>(
    runner: R,
    name: Seq<char>,
    action: InterfaceAction,
    outputs: Seq<Seq<u8>>,
    outcome: Result<(), Seq<char>>,
) -> bool
    decreases 2 - outputs.len(),
{
    if outputs.len() >= 2 {
        outcome == Ok::<(), Seq<char>>(())
    } else {
        match lifecycle_call(name, action, outputs) {
            None => outcome == Ok::<(), Seq<char>>(()),
            Some(call) => exists|raw: Result<Seq<u8>, Seq<char>>|
                #![trigger runner.ran(call, raw)]
                runner.ran(call, raw) && match raw {
                    Err(e) => outcome == Err::<(), Seq<char>>(e),
                    Ok(out) => lifecycle_outcome(runner, name, action, outputs.push(out), outcome),
                },
        }
    }
}


// ---------------------------------------------------------------------------
// Output decoding
// ---------------------------------------------------------------------------

/// What `String::from_utf8_lossy` makes of bytes that are not valid UTF-8.
pub uninterp spec fn lossy_utf8(bytes: Seq<u8>) -> Seq<char>;

/// `String::from_utf8_lossy`: valid UTF-8 is decoded as it is; invalid sequences
/// become U+FFFD, which is left unstated beyond its name.
#[verifier::external_body]
pub(crate) fn utf8_lossy(bytes: &[u8]) -> (r: String)
    ensures
        vstd::utf8::valid_utf8(bytes@) ==> r@ == vstd::utf8::decode_utf8(bytes@),
        !vstd::utf8::valid_utf8(bytes@) ==> r@ == lossy_utf8(bytes@),
{
    String::from_utf8_lossy(bytes).into_owned()
}

/// The text a program printed, as `from_utf8_lossy` reads it.
pub open spec fn output_text(bytes: Seq<u8>) -> Seq<char> {
    if vstd::utf8::valid_utf8(bytes) {
        vstd::utf8::decode_utf8(bytes)
    } else {
        lossy_utf8(bytes)
    }
}

pub fn output_string(bytes: &[u8]) -> (r: String)
    ensures
        r@ == output_text(bytes@),
{
    utf8_lossy(bytes)
}

/// The printed text, trimmed: how a generated or derived key is read.
pub fn trimmed_output(bytes: &[u8]) -> (r: String)
    ensures
        r@ == trim(output_text(bytes@)),
{
    let text = output_string(bytes);
    let chars = to_chars(text.as_str());
    string_from_chars(trim_slice(chars.as_slice()))
}

/// The non-empty trimmed lines of a listing, as `ls -1` prints the configuration names.
pub fn listed_names(bytes: &[u8]) -> (r: Vec<String>)
    ensures
        r.deep_view() == keep_trimmed(lines(output_text(bytes@))),
{
    let text = output_string(bytes);
    let chars = to_chars(text.as_str());
    let ls = lines_of(chars.as_slice());
    let ghost lv = ls.deep_view();
    let mut out: Vec<String> = Vec::new();
    let n = ls.len();
    let mut i: usize = 0;
    while i < n
        invariant
            i <= n,
            n == lv.len(),
            lv == ls.deep_view(),
            out.deep_view() == keep_trimmed(lv.take(i as int)),
        decreases n - i,
    {
        let t = trim_slice(ls[i].as_slice());
        proof {
            assert(lv.take(i + 1).drop_last() =~= lv.take(i as int));
            assert(ls@[i as int].deep_view() =~= ls@[i as int]@);
            assert(lv.take(i + 1).last() == ls@[i as int]@);
        }
        if t.len() > 0 {
            let ghost before = out.deep_view();
            out.push(string_from_chars(t));
            assert(out.deep_view() =~= before.push(t@));
        }
        i = i + 1;
    }
    assert(lv.take(n as int) =~= lv);
    out
}

/// A sysfs counter: its trimmed decimal value, 0 when missing or not a number.
pub open spec fn sysfs_value(text: Option<Seq<char>>) -> u64 {
    match text {
        Some(t) => match parse_unsigned(trim(t), u64::MAX as nat) {
            Some(n) => n as u64,
            None => 0,
        },
        None => 0,
    }
}

pub fn sysfs_counter(text: Option<String>) -> (r: u64)
    ensures
        r == sysfs_value(text.deep_view()),
{
    match text {
        Some(t) => {
            let chars = to_chars(t.as_str());
            match parse_u64_chars(trim_slice(chars.as_slice())) {
                Some(v) => v,
                None => 0,
            }
        },
        None => 0,
    }
}

// ---------------------------------------------------------------------------
// Failed programs
// ---------------------------------------------------------------------------

/// The exit code as it is reported: the number, or `signal` when the program was
/// stopped by a signal and has none.
pub open spec fn exit_label(code: Option<i32>) -> Seq<char> {
    match code {
        Some(c) => signed_decimal(c as int),
        None => "signal"@,
    }
}

pub fn exit_label_text(code: Option<i32>) -> (r: String)
    ensures
        r@ == exit_label(code),
{
    match code {
        Some(c) => i32_to_string(c),
        None => {
            let mut s = String::new();
            push_str(&mut s, "signal");
            s
        },
    }
}

/// `head`, followed by what the program printed on standard error, trimmed, when
/// that is not empty.
pub open spec fn with_stderr(head: Seq<char>, stderr: Seq<char>) -> Seq<char> {
    if trim(stderr).len() == 0 {
        head
    } else {
        head + ": "@ + trim(stderr)
    }
}

pub fn append_stderr(head: String, stderr: &[u8]) -> (r: String)
    ensures
        r@ == with_stderr(head@, output_text(stderr@)),
{
    let text = output_string(stderr);
    let chars = to_chars(text.as_str());
    let err = trim_slice(chars.as_slice());
    let mut r = head;
    if err.len() > 0 {
        push_str(&mut r, ": ");
        push_chars(&mut r, err);
    }
    r
}

/// How a program that ran but failed is reported by the command runner.
pub open spec fn run_failure_text(program: Seq<char>, code: Option<i32>, stderr: Seq<char>) -> Seq<
    char,
> {
    with_stderr(program + " 失败（exit "@ + exit_label(code) + "）"@, stderr)
}

/// The message for `program` ending with exit status `code` after printing `stderr`.
pub fn run_failure_message(program: &str, code: Option<i32>, stderr: &[u8]) -> (r: String)
    ensures
        r@ == run_failure_text(program@, code, output_text(stderr@)),
{
    let mut head = String::new();
    push_str(&mut head, program);
    push_str(&mut head, " 失败（exit ");
    let label = exit_label_text(code);
    push_str(&mut head, label.as_str());
    push_str(&mut head, "）");
    append_stderr(head, stderr)
}

// ---------------------------------------------------------------------------
// Export destinations on disk
// ---------------------------------------------------------------------------

/// What is found at one directory on the way to an export destination.
pub enum ExportEntry {
    /// A symbolic link, which is never followed.
    Symlink,
    /// Something that is not a directory.
    NotDirectory,
    /// An existing directory.
    Directory,
    /// Nothing: the directory is to be created.
    Missing,
    /// The entry could not be examined, for the reason given.
    Unreadable(String),
}

/// What to do with a directory on the way to an export destination.
#[derive(Clone, Copy, Debug, PartialEq, Eq, Structural)]
pub enum ExportStep {
    /// Go on to the next directory.
    Descend,
    /// Create the directory, then go on.
    Create,
}

pub open spec fn export_step_spec(entry: ExportEntry) -> Result<ExportStep, Seq<char>> {
    match entry {
        ExportEntry::Symlink => Err("导出路径包含符号链接目录"@),
        ExportEntry::NotDirectory => Err("导出路径包含非目录项"@),
        ExportEntry::Directory => Ok(ExportStep::Descend),
        ExportEntry::Missing => Ok(ExportStep::Create),
        ExportEntry::Unreadable(e) => Err("检查导出目录失败: "@ + e@),
    }
}

/// The decision for one directory between the home directory and an export
/// destination: symbolic links and non-directories stop the export, missing
/// directories are created.
pub fn export_step(entry: ExportEntry) -> (r: Result<ExportStep, String>)
    ensures
        match export_step_spec(entry) {
            Ok(s) => r == Ok::<ExportStep, String>(s),
            Err(m) => r matches Err(e) && e@ == m,
        },
{
    let mut m = String::new();
    match entry {
        ExportEntry::Symlink => {
            push_str(&mut m, "导出路径包含符号链接目录");
            Err(m)
        },
        ExportEntry::NotDirectory => {
            push_str(&mut m, "导出路径包含非目录项");
            Err(m)
        },
        ExportEntry::Directory => Ok(ExportStep::Descend),
        ExportEntry::Missing => Ok(ExportStep::Create),
        ExportEntry::Unreadable(e) => {
            push_str(&mut m, "检查导出目录失败: ");
            push_str(&mut m, e.as_str());
            Err(m)
        },
    }
}

// ---------------------------------------------------------------------------
// `ip -j addr show` output
// ---------------------------------------------------------------------------

/// One address of an `ip -j addr` entry, as far as it is read.
pub struct IpAddrInfo {
    pub local: Option<String>,
    pub prefixlen: Option<u64>,
}

/// One `ip -j addr` entry, as far as it is read: its `mtu`, and its `addr_info` list
/// when that is an array.
pub struct IpAddrEntry {
    pub mtu: Option<u64>,
    pub addr_info: Option<Vec<IpAddrInfo>>,
}

pub struct IpAddrInfoModel {
    pub local: Option<Seq<char>>,
    pub prefixlen: Option<u64>,
}

pub struct IpAddrEntryModel {
    pub mtu: Option<u64>,
    pub addr_info: Option<Seq<IpAddrInfoModel>>,
}

impl View for IpAddrInfo {
    type V = IpAddrInfoModel;

    open spec fn view(&self) -> IpAddrInfoModel {
        IpAddrInfoModel { local: self.local.deep_view(), prefixlen: self.prefixlen }
    }
}

impl View for IpAddrEntry {
    type V = IpAddrEntryModel;

    open spec fn view(&self) -> IpAddrEntryModel {
        IpAddrEntryModel {
            mtu: self.mtu,
            addr_info: match &self.addr_info {
                Some(v) => Some(v@.map_values(|a: IpAddrInfo| a@)),
                None => None,
            },
        }
    }
}

pub open spec fn entries_view(e: Option<Vec<IpAddrEntry>>) -> Option<Seq<IpAddrEntryModel>> {
    match e {
        Some(v) => Some(v@.map_values(|x: IpAddrEntry| x@)),
        None => None,
    }
}

/// What serde_json reads from `ip -j addr` output: `None` unless it is a JSON array;
/// otherwise, per element, the unsigned `mtu` field and the `local` string and unsigned
/// `prefixlen` fields of each element of an `addr_info` array.
pub uninterp spec fn ip_addr_entries(output: Seq<u8>) -> Option<Seq<IpAddrEntryModel>>;

/// `serde_json::from_slice` into a `Value`, and the fields that the details are read from.
#[verifier::external_body]
fn read_ip_addr_json(output: &[u8]) -> (r: Option<Vec<IpAddrEntry>>)
    ensures
        entries_view(r) == ip_addr_entries(output@),
{
    let json = serde_json::from_slice::<Value>(output).ok()?;
    Some(json.as_array()?.iter().map(|entry| IpAddrEntry {
        mtu: entry.get("mtu").and_then(Value::as_u64),
        addr_info: entry.get("addr_info").and_then(Value::as_array).map(|list| list.iter().map(|a| IpAddrInfo {
            local: a.get("local").and_then(Value::as_str).map(str::to_string),
            prefixlen: a.get("prefixlen").and_then(Value::as_u64),
        }).collect()),
    }).collect())
}

/// `local/prefixlen` for each address that has both.
pub open spec fn address_strings(infos: Seq<IpAddrInfoModel>) -> Seq<Seq<char>>
    decreases infos.len(),
{
    if infos.len() == 0 {
        Seq::empty()
    } else {
        let r = address_strings(infos.drop_last());
        let a = infos.last();
        match (a.local, a.prefixlen) {
            (Some(l), Some(p)) => r.push(l + "/"@ + decimal(p as nat)),
            _ => r,
        }
    }
}

/// The details of the first entry: its MTU (truncated to 32 bits) and its addresses.
pub open spec fn details_of(entries: Option<Seq<IpAddrEntryModel>>) -> InterfaceDetailsModel {
    match entries {
        Some(es) => if es.len() > 0 {
            InterfaceDetailsModel {
                addresses: match es[0].addr_info {
                    Some(infos) => address_strings(infos),
                    None => Seq::empty(),
                },
                mtu: match es[0].mtu {
                    Some(m) => Some(m as u32),
                    None => None,
                },
            }
        } else {
            InterfaceDetailsModel { addresses: Seq::empty(), mtu: None }
        },
        None => InterfaceDetailsModel { addresses: Seq::empty(), mtu: None },
    }
}

/// The details that the entries read from `ip -j addr` give.
pub fn details_from_entries(entries: Option<Vec<IpAddrEntry>>) -> (r: InterfaceDetails)
    ensures
        r@ == details_of(entries_view(entries)),
{
    let es = match entries {
        Some(es) => es,
        None => {
            return InterfaceDetails::default();
        },
    };
    if es.len() == 0 {
        return InterfaceDetails::default();
    }
    let ghost ev = es@.map_values(|x: IpAddrEntry| x@);
    let entry = &es[0];
    assert(ev[0] == entry@);
    let mtu = match entry.mtu {
        Some(m) => Some(m as u32),
        None => None,
    };
    let mut addresses: Vec<String> = Vec::new();
    match &entry.addr_info {
        Some(infos) => {
            let ghost iv = infos@.map_values(|a: IpAddrInfo| a@);
            let n = infos.len();
            let mut i: usize = 0;
            assert(iv.take(0) =~= Seq::<IpAddrInfoModel>::empty());
            while i < n
                invariant
                    i <= n,
                    n == infos@.len(),
                    iv == infos@.map_values(|a: IpAddrInfo| a@),
                    addresses.deep_view() == address_strings(iv.take(i as int)),
                decreases n - i,
            {
                let a = &infos[i];
                proof {
                    assert(iv.take(i + 1).drop_last() =~= iv.take(i as int));
                    assert(iv.take(i + 1).last() == a@);
                }
                match (&a.local, a.prefixlen) {
                    (Some(l), Some(p)) => {
                        let mut s = String::new();
                        push_str(&mut s, l.as_str());
                        push_str(&mut s, "/");
                        let d = u64_to_string(p);
                        push_str(&mut s, d.as_str());
                        let ghost before = addresses.deep_view();
                        addresses.push(s);
                        assert(addresses.deep_view() =~= before.push(
                            l@ + "/"@ + decimal(p as nat),
                        ));
                    },
                    _ => {},
                }
                i = i + 1;
            }
            assert(iv.take(n as int) =~= iv);
        },
        None => {},
    }
    let r = InterfaceDetails { addresses, mtu };
    assert(r@ =~= details_of(entries_view(Some(es))));
    r
}

/// The details in `ip -j addr show dev <name>` output.
pub fn parse_interface_details(output: &[u8]) -> (r: InterfaceDetails)
    ensures
        r@ == details_of(ip_addr_entries(output@)),
{
    details_from_entries(read_ip_addr_json(output))
}

// ---------------------------------------------------------------------------
// The Linux host
// ---------------------------------------------------------------------------

// ---------------------------------------------------------------------------
// Invocations
// ---------------------------------------------------------------------------

/// One program run: whether through pkexec, the program, its arguments, and what it
/// gets on standard input.
pub struct Invocation {
    pub privileged: bool,
    pub program: String,
    pub args: Vec<String>,
    pub stdin: Option<Vec<u8>>,
}

#[verifier::ext_equal]
pub struct InvocationModel {
    pub privileged: bool,
    pub program: Seq<char>,
    pub args: Seq<Seq<char>>,
    pub stdin: Option<Seq<u8>>,
}

impl View for Invocation {
    type V = InvocationModel;

    open spec fn view(&self) -> InvocationModel {
        InvocationModel {
            privileged: self.privileged,
            program: self.program@,
            args: self.args.deep_view(),
            stdin: match &self.stdin {
                Some(v) => Some(v@),
                None => None,
            },
        }
    }
}

pub open spec fn invocation(
    privileged: bool,
    program: Seq<char>,
    args: Seq<Seq<char>>,
    stdin: Option<Seq<u8>>,
) -> InvocationModel {
    InvocationModel { privileged, program, args, stdin }
}

pub open spec fn opt_invocation_view(i: Option<Invocation>) -> Option<InvocationModel> {
    match i {
        Some(v) => Some(v@),
        None => None,
    }
}

/// The arguments of a command, as text.
pub open spec fn args_view(args: Seq<&str>) -> Seq<Seq<char>> {
    args.map_values(|a: &str| a@)
}

/// What a command is given on standard input.
pub open spec fn stdin_view(stdin: Option<&[u8]>) -> Option<Seq<u8>> {
    match stdin {
        Some(b) => Some(b@),
        None => None,
    }
}

fn owned(s: &str) -> (r: String)
    ensures
        r@ == s@,
{
    s.to_owned()
}

/// The UTF-8 bytes of `s`.
pub fn text_bytes(s: &str) -> (r: Vec<u8>)
    ensures
        r@ == encode_utf8(s@),
{
    vstd::slice::slice_to_vec(s.as_bytes())
}

/// An invocation of `program` with these arguments and standard input.
pub fn make_invocation(privileged: bool, program: &str, args: &[&str], stdin: Option<&[u8]>) -> (r:
    Invocation)
    ensures
        r@ == invocation(privileged, program@, args_view(args@), stdin_view(stdin)),
{
    let mut owned_args: Vec<String> = Vec::new();
    let n = args.len();
    let mut i: usize = 0;
    while i < n
        invariant
            i <= n,
            n == args@.len(),
            owned_args.deep_view() == args_view(args@).take(i as int),
        decreases n - i,
    {
        let ghost before = owned_args.deep_view();
        owned_args.push(owned(args[i]));
        assert(owned_args.deep_view() =~= args_view(args@).take(i + 1)) by {
            assert(args_view(args@).take(i + 1) =~= before.push(args@[i as int]@));
        }
        i = i + 1;
    }
    assert(args_view(args@).take(n as int) =~= args_view(args@));
    let input = match stdin {
        Some(b) => Some(vstd::slice::slice_to_vec(b)),
        None => None,
    };
    let r = Invocation { privileged, program: owned(program), args: owned_args, stdin: input };
    assert(r@ =~= invocation(privileged, program@, args_view(args@), stdin_view(stdin)));
    r
}

/// The arguments of an invocation, as the runner takes them.
pub fn invocation_args<'a>(inv: &'a Invocation) -> (r: Vec<&'a str>)
    ensures
        args_view(r@) == inv@.args,
{
    let mut args: Vec<&str> = Vec::new();
    let n = inv.args.len();
    let mut i: usize = 0;
    while i < n
        invariant
            i <= n,
            n == inv.args@.len(),
            args@.len() == i,
            args_view(args@) == inv@.args.take(i as int),
        decreases n - i,
    {
        let ghost before = args@;
        let a = inv.args[i].as_str();
        assert(a@ == inv@.args[i as int]);
        args.push(a);
        assert(args@ == before.push(a));
        assert(args_view(args@) =~= inv@.args.take(i + 1));
        i = i + 1;
    }
    assert(inv@.args.take(n as int) =~= inv@.args);
    args
}

/// The standard input of an invocation, as the runner takes it.
pub fn invocation_stdin<'a>(inv: &'a Invocation) -> (r: Option<&'a [u8]>)
    ensures
        stdin_view(r) == inv@.stdin,
{
    match &inv.stdin {
        Some(v) => Some(v.as_slice()),
        None => None,
    }
}

/// Hands the invocation unchanged to the runner.
pub fn run_with<R: CommandRunner>(runner: &R, inv: &Invocation) -> (r: Result<Vec<u8>, String>)
    ensures
        runner.ran(inv@, bytes_result(r)),
{
    let args = invocation_args(inv);
    runner.run(inv.privileged, inv.program.as_str(), args.as_slice(), invocation_stdin(inv))
}

/// Builds `/etc/wireguard/<name>`.
pub fn config_path(name: &str) -> (r: String)
    ensures
        r@ == config_path_of(name@),
{
    let mut p = String::new();
    push_str(&mut p, CONF_DIR);
    push_str(&mut p, "/");
    push_str(&mut p, name);
    p
}

/// `/etc/wireguard/<name>`.
pub open spec fn config_path_of(name: Seq<char>) -> Seq<char> {
    CONF_DIR@ + "/"@ + name
}

/// `wg show all dump`, with root rights.
pub open spec fn dump_call() -> InvocationModel {
    invocation(true, WG_BIN@, seq!["show"@, "all"@, "dump"@], None)
}

pub fn dump_invocation() -> (r: Invocation)
    ensures
        r@ == dump_call(),
{
    let r = make_invocation(true, WG_BIN, &["show", "all", "dump"], None);
    assert(r@ =~= dump_call());
    r
}

/// `ls -1 /etc/wireguard`, with root rights.
pub open spec fn listing_call() -> InvocationModel {
    invocation(true, LS_BIN@, seq!["-1"@, CONF_DIR@], None)
}

pub fn listing_invocation() -> (r: Invocation)
    ensures
        r@ == listing_call(),
{
    let r = make_invocation(true, LS_BIN, &["-1", CONF_DIR], None);
    assert(r@ =~= listing_call());
    r
}

/// `cat /etc/wireguard/<name>`, with root rights.
pub open spec fn read_config_call(name: Seq<char>) -> InvocationModel {
    invocation(true, CAT_BIN@, seq![config_path_of(name)], None)
}

pub fn read_config_invocation(name: &str) -> (r: Invocation)
    ensures
        r@ == read_config_call(name@),
{
    let path = config_path(name);
    let r = make_invocation(true, CAT_BIN, &[path.as_str()], None);
    assert(r@ =~= read_config_call(name@));
    r
}

/// `install -m 600 -D /dev/stdin /etc/wireguard/<name>`, with root rights and the
/// content on standard input only: the file is replaced whole and readable by root
/// alone, and the content never appears on the command line.
pub open spec fn write_config_call(name: Seq<char>, content: Seq<char>) -> InvocationModel {
    invocation(
        true,
        INSTALL_BIN@,
        seq!["-m"@, "600"@, "-D"@, "/dev/stdin"@, config_path_of(name)],
        Some(encode_utf8(content)),
    )
}

pub fn write_config_invocation(name: &str, content: &str) -> (r: Invocation)
    ensures
        r@ == write_config_call(name@, content@),
{
    let path = config_path(name);
    let r = make_invocation(
        true,
        INSTALL_BIN,
        &["-m", "600", "-D", "/dev/stdin", path.as_str()],
        Some(content.as_bytes()),
    );
    assert(r@ =~= write_config_call(name@, content@));
    r
}

/// `ip -j addr show dev <name>`, without privileges.
pub open spec fn details_call(name: Seq<char>) -> InvocationModel {
    invocation(false, IP_BIN@, seq!["-j"@, "addr"@, "show"@, "dev"@, name], None)
}

pub fn details_invocation(name: &str) -> (r: Invocation)
    ensures
        r@ == details_call(name@),
{
    let r = make_invocation(false, IP_BIN, &["-j", "addr", "show", "dev", name], None);
    assert(r@ =~= details_call(name@));
    r
}

/// `wg setconf <name> /dev/stdin`, with root rights and the Peers on standard input.
pub open spec fn set_peers_call(name: Seq<char>, configuration: Seq<char>) -> InvocationModel {
    invocation(
        true,
        WG_BIN@,
        seq!["setconf"@, name, "/dev/stdin"@],
        Some(encode_utf8(configuration)),
    )
}

pub fn set_peers_invocation(name: &str, configuration: &str) -> (r: Invocation)
    ensures
        r@ == set_peers_call(name@, configuration@),
{
    let r = make_invocation(
        true,
        WG_BIN,
        &["setconf", name, "/dev/stdin"],
        Some(configuration.as_bytes()),
    );
    assert(r@ =~= set_peers_call(name@, configuration@));
    r
}

/// `wg genkey`, without privileges.
pub open spec fn genkey_call() -> InvocationModel {
    invocation(false, WG_BIN@, seq!["genkey"@], None)
}

pub fn genkey_invocation() -> (r: Invocation)
    ensures
        r@ == genkey_call(),
{
    let r = make_invocation(false, WG_BIN, &["genkey"], None);
    assert(r@ =~= genkey_call());
    r
}

/// `wg pubkey`, without privileges, with the private key on standard input only.
pub open spec fn pubkey_call(private_key: Seq<char>) -> InvocationModel {
    invocation(false, WG_BIN@, seq!["pubkey"@], Some(encode_utf8(private_key)))
}

pub fn pubkey_invocation(private_key: &str) -> (r: Invocation)
    ensures
        r@ == pubkey_call(private_key@),
{
    let r = make_invocation(false, WG_BIN, &["pubkey"], Some(private_key.as_bytes()));
    assert(r@ =~= pubkey_call(private_key@));
    r
}

/// `wg genpsk`, without privileges.
pub open spec fn genpsk_call() -> InvocationModel {
    invocation(false, WG_BIN@, seq!["genpsk"@], None)
}

pub fn genpsk_invocation() -> (r: Invocation)
    ensures
        r@ == genpsk_call(),
{
    let r = make_invocation(false, WG_BIN, &["genpsk"], None);
    assert(r@ =~= genpsk_call());
    r
}

/// The next program to run for a lifecycle action, given the standard output of the
/// runs so far (all of which succeeded); `None` once the action is complete. Up and
/// Down are one `wg-quick` run; Restart is `down` then `up`; Sync is `wg-quick strip`
/// then `wg syncconf` with the stripped configuration on standard input. Every run
/// has root rights.
pub open spec fn lifecycle_call(
    name: Seq<char>,
    action: InterfaceAction,
    outputs: Seq<Seq<u8>>,
) -> Option<InvocationModel> {
    let quick = |verb: Seq<char>| invocation(true, WG_QUICK_BIN@, seq![verb, name], None);
    match action {
        InterfaceAction::Up => if outputs.len() == 0 {
            Some(quick("up"@))
        } else {
            None
        },
        InterfaceAction::Down => if outputs.len() == 0 {
            Some(quick("down"@))
        } else {
            None
        },
        InterfaceAction::Restart => if outputs.len() == 0 {
            Some(quick("down"@))
        } else if outputs.len() == 1 {
            Some(quick("up"@))
        } else {
            None
        },
        InterfaceAction::Sync => if outputs.len() == 0 {
            Some(quick("strip"@))
        } else if outputs.len() == 1 {
            Some(
                invocation(
                    true,
                    WG_BIN@,
                    seq!["syncconf"@, name, "/dev/stdin"@],
                    Some(outputs[0]),
                ),
            )
        } else {
            None
        },
    }
}

pub open spec fn outputs_view(outputs: Seq<Vec<u8>>) -> Seq<Seq<u8>> {
    outputs.map_values(|o: Vec<u8>| o@)
}

pub fn lifecycle_invocation(name: &str, action: InterfaceAction, outputs: &Vec<Vec<u8>>) -> (r:
    Option<Invocation>)
    ensures
        opt_invocation_view(r) == lifecycle_call(name@, action, outputs_view(outputs@)),
{
    let ghost ov = outputs_view(outputs@);
    let n = outputs.len();
    let r = match action {
        InterfaceAction::Up => if n == 0 {
            Some(make_invocation(true, WG_QUICK_BIN, &["up", name], None))
        } else {
            None
        },
        InterfaceAction::Down => if n == 0 {
            Some(make_invocation(true, WG_QUICK_BIN, &["down", name], None))
        } else {
            None
        },
        InterfaceAction::Restart => if n == 0 {
            Some(make_invocation(true, WG_QUICK_BIN, &["down", name], None))
        } else if n == 1 {
            Some(make_invocation(true, WG_QUICK_BIN, &["up", name], None))
        } else {
            None
        },
        InterfaceAction::Sync => if n == 0 {
            Some(make_invocation(true, WG_QUICK_BIN, &["strip", name], None))
        } else if n == 1 {
            assert(ov[0] == outputs@[0]@);
            Some(
                make_invocation(
                    true,
                    WG_BIN,
                    &["syncconf", name, "/dev/stdin"],
                    Some(outputs[0].as_slice()),
                ),
            )
        } else {
            None
        },
    };
    assert(opt_invocation_view(r) =~= lifecycle_call(name@, action, ov)) by {
        if r is Some {
            assert(r->0@ =~= lifecycle_call(name@, action, ov)->0);
        }
    }
    r
}

/// A valid configuration name addresses a file directly in /etc/wireguard: the path
/// built from it has exactly the components `etc`, `wireguard` and the name itself,
/// so no name that passes validation reaches another directory.
pub proof fn lemma_config_path_stays_in_directory(name: Seq<char>)
    requires
        valid_conf_name(name),
    ensures
        path_parts(config_path_of(name)) == seq!["etc"@, "wireguard"@, name],
{
    reveal_strlit("/etc/wireguard");
    reveal_strlit("/");
    reveal_strlit("etc");
    reveal_strlit("wireguard");
    reveal_strlit(".");
    let etc = seq!['e', 't', 'c'];
    let wg = seq!['w', 'i', 'r', 'e', 'g', 'u', 'a', 'r', 'd'];
    assert("etc"@ =~= etc);
    assert("wireguard"@ =~= wg);
    let e = Seq::<char>::empty();
    let s1 = seq!['/'];
    assert(s1.drop_last() =~= e);
    assert(split_char(e, '/') =~= seq![e]);
    assert(s1.last() == '/');
    assert(split_char(s1, '/') =~= seq![e, e]);
    assert forall|j: int| 0 <= j < etc.len() implies #[trigger] etc[j] != '/' by {}
    lemma_split_append_plain(s1, etc, '/');
    assert(split_char(s1 + etc, '/') =~= seq![e, etc]);
    let s2 = s1 + etc + seq!['/'];
    assert(s2.drop_last() =~= s1 + etc);
    assert(s2.last() == '/');
    assert(split_char(s2, '/') =~= seq![e, etc, e]);
    assert forall|j: int| 0 <= j < wg.len() implies #[trigger] wg[j] != '/' by {}
    lemma_split_append_plain(s2, wg, '/');
    assert(split_char(s2 + wg, '/') =~= seq![e, etc, wg]);
    let base = s2 + wg + seq!['/'];
    assert(base.drop_last() =~= s2 + wg);
    assert(base.last() == '/');
    let pieces = seq![e, etc, wg, e];
    assert(split_char(base, '/') =~= pieces);
    assert(CONF_DIR@ + "/"@ =~= base);
    assert forall|j: int| 0 <= j < name.len() implies #[trigger] name[j] != '/' by {
        assert(is_name_char(name[j]));
    }
    lemma_split_append_plain(base, name, '/');
    assert(config_path_of(name) =~= base + name);
    let full = seq![e, etc, wg, name];
    assert(pieces.update(3, e + name) =~= full);
    assert(name != "."@) by {
        assert(name[0] != '.');
    }
    reveal_with_fuel(normal_pieces, 5);
    assert(full.drop_last() =~= seq![e, etc, wg]);
    assert(full.drop_last().drop_last() =~= seq![e, etc]);
    assert(full.drop_last().drop_last().drop_last() =~= seq![e]);
    assert(full.drop_last().drop_last().drop_last().drop_last() =~= Seq::<Seq<char>>::empty());
    assert(etc != "."@);
    assert(wg != "."@);
    assert(normal_pieces(full) =~= seq!["etc"@, "wireguard"@, name]);
}

pub struct LinuxHost<R> {
    runner: R,
}

impl<R> LinuxHost<R> {
    pub fn with_runner(runner: R) -> (r: Self)
        ensures
            r.runner() == runner,
    {
        LinuxHost { runner }
    }

    pub closed spec fn runner(&self) -> R {
        self.runner
    }

    /// The runner that executes this host's commands.
    pub fn runner_ref(&self) -> (r: &R)
        ensures
            *r == self.runner(),
    {
        &self.runner
    }
}

impl<R: CommandRunner> LinuxHost<R> {
    fn run_privileged(&self, program: &str, args: &[&str], stdin: Option<&[u8]>) -> (r: Result<
        Vec<u8>,
        String,
    >)
        ensures
            self.runner().ran(
                invocation(true, program@, args_view(args@), stdin_view(stdin)),
                bytes_result(r),
            ),
    {
        self.runner.run(true, program, args, stdin)
    }

    fn run_user(&self, program: &str, args: &[&str], stdin: Option<&[u8]>) -> (r: Result<
        Vec<u8>,
        String,
    >)
        ensures
            self.runner().ran(
                invocation(false, program@, args_view(args@), stdin_view(stdin)),
                bytes_result(r),
            ),
    {
        self.runner.run(false, program, args, stdin)
    }

    /// Hands the invocation unchanged to the runner, with or without root rights as it
    /// says.
    fn run_invocation(&self, inv: &Invocation) -> (r: Result<Vec<u8>, String>)
        ensures
            self.runner().ran(inv@, bytes_result(r)),
    {
        let args = invocation_args(inv);
        if inv.privileged {
            self.run_privileged(inv.program.as_str(), args.as_slice(), invocation_stdin(inv))
        } else {
            self.run_user(inv.program.as_str(), args.as_slice(), invocation_stdin(inv))
        }
    }

    pub fn config_path(name: &str) -> (r: String)
        ensures
            r@ == config_path_of(name@),
    {
        config_path(name)
    }

    fn sysfs_u64(&self, path: &str) -> (r: u64)
        ensures
            exists|text: Option<Seq<char>>| self.runner().read(path@, text) && r == sysfs_value(text),
    {
        let text = self.runner.read_text(path);
        let ghost tv = text.deep_view();
        let r = sysfs_counter(text);
        assert(self.runner().read(path@, tv) && r == sysfs_value(tv));
        r
    }

    fn net_path(name: &str, tail: &str) -> (r: String)
        ensures
            r@ == net_path_of(name@, tail@),
    {
        let mut p = String::new();
        push_str(&mut p, "/sys/class/net/");
        push_str(&mut p, name);
        push_str(&mut p, tail);
        p
    }
}

impl<R: CommandRunner> WireGuardHost for LinuxHost<R> {
    /// What `wg show all dump` printed, or the run's message.
    open spec fn dumped(&self, outcome: Result<Seq<char>, Seq<char>>) -> bool {
        exists|raw: Result<Seq<u8>, Seq<char>>|
            self.runner().ran(dump_call(), raw) && outcome == decoded(raw)
    }

    /// The non-empty trimmed lines that `ls -1 /etc/wireguard` printed, or its message.
    open spec fn listed(&self, outcome: Result<Seq<Seq<char>>, Seq<char>>) -> bool {
        exists|raw: Result<Seq<u8>, Seq<char>>|
            self.runner().ran(listing_call(), raw) && outcome == listing_of(raw)
    }

    /// What `cat /etc/wireguard/<name>` printed, or its message.
    open spec fn read_back(&self, name: Seq<char>, outcome: Result<Seq<char>, Seq<char>>) -> bool {
        exists|raw: Result<Seq<u8>, Seq<char>>|
            self.runner().ran(read_config_call(name), raw) && outcome == decoded(raw)
    }

    /// The outcome of `install -m 600 -D /dev/stdin <path>` with the content on stdin.
    open spec fn wrote(
        &self,
        name: Seq<char>,
        content: Seq<char>,
        outcome: Result<(), Seq<char>>,
    ) -> bool {
        exists|raw: Result<Seq<u8>, Seq<char>>|
            self.runner().ran(write_config_call(name, content), raw) && outcome == unit_of(raw)
    }

    /// The configuration is read as `read_config` reads it, then handed to the runner's
    /// export; a failed read ends the export with its message.
    open spec fn exported_to(
        &self,
        name: Seq<char>,
        destination: Seq<char>,
        home: Seq<char>,
        outcome: Result<(), Seq<char>>,
    ) -> bool {
        exists|text: Result<Seq<char>, Seq<char>>|
            self.read_back(name, text) && match text {
                Err(e) => outcome == Err::<(), Seq<char>>(e),
                Ok(t) => self.runner().exported(destination, home, t, outcome),
            }
    }

    /// The details in what `ip -j addr show dev <name>` printed; none when it failed.
    open spec fn detailed(&self, name: Seq<char>, details: InterfaceDetailsModel) -> bool {
        exists|raw: Result<Seq<u8>, Seq<char>>|
            self.runner().ran(details_call(name), raw) && details == details_from_run(raw)
    }

    /// The counters read from `/sys/class/net/<name>/statistics/{rx,tx}_bytes`.
    open spec fn counted(&self, name: Seq<char>, stats: (u64, u64)) -> bool {
        exists|rx: Option<Seq<char>>, tx: Option<Seq<char>>|
            self.runner().read(net_path_of(name, "/statistics/rx_bytes"@), rx) && self.runner().read(
                net_path_of(name, "/statistics/tx_bytes"@),
                tx,
            ) && stats == (sysfs_value(rx), sysfs_value(tx))
    }

    /// Whether `/sys/class/net/<name>` is found.
    open spec fn present(&self, name: Seq<char>, running: bool) -> bool {
        self.runner().found(net_path_of(name, ""@), running)
    }

    /// The runs that `lifecycle_call` orders, stopping at the first failure.
    open spec fn applied(
        &self,
        name: Seq<char>,
        action: InterfaceAction,
        outcome: Result<(), Seq<char>>,
    ) -> bool {
        lifecycle_outcome(self.runner(), name, action, Seq::empty(), outcome)
    }

    /// The outcome of `wg setconf <name> /dev/stdin` with the configuration on stdin.
    open spec fn peers_set(
        &self,
        name: Seq<char>,
        configuration: Seq<char>,
        outcome: Result<(), Seq<char>>,
    ) -> bool {
        exists|raw: Result<Seq<u8>, Seq<char>>|
            self.runner().ran(set_peers_call(name, configuration), raw) && outcome == unit_of(raw)
    }

    /// What `wg genkey` printed, trimmed, or its message.
    open spec fn private_key_made(&self, outcome: Result<Seq<char>, Seq<char>>) -> bool {
        exists|raw: Result<Seq<u8>, Seq<char>>|
            self.runner().ran(genkey_call(), raw) && outcome == trimmed_of(raw)
    }

    /// What `wg pubkey` printed for the key on its standard input, trimmed, or its message.
    open spec fn public_key_made(
        &self,
        private_key: Seq<char>,
        outcome: Result<Seq<char>, Seq<char>>,
    ) -> bool {
        exists|raw: Result<Seq<u8>, Seq<char>>|
            self.runner().ran(pubkey_call(private_key), raw) && outcome == trimmed_of(raw)
    }

    /// What `wg genpsk` printed, trimmed, or its message.
    open spec fn preshared_key_made(&self, outcome: Result<Seq<char>, Seq<char>>) -> bool {
        exists|raw: Result<Seq<u8>, Seq<char>>|
            self.runner().ran(genpsk_call(), raw) && outcome == trimmed_of(raw)
    }

    fn show_all_dump(&self) -> (r: Result<String, String>) {
        let inv = dump_invocation();
        let raw = self.run_invocation(&inv);
        let ghost rv = bytes_result(raw);
        let r = match raw {
            Ok(output) => Ok(output_string(output.as_slice())),
            Err(e) => Err(e),
        };
        assert(self.runner().ran(dump_call(), rv) && text_result(r) == decoded(rv));
        r
    }

    fn list_config_names(&self) -> (r: Result<Vec<String>, String>) {
        let inv = listing_invocation();
        let raw = self.run_invocation(&inv);
        let ghost rv = bytes_result(raw);
        let r = match raw {
            Ok(output) => Ok(listed_names(output.as_slice())),
            Err(e) => Err(e),
        };
        assert(self.runner().ran(listing_call(), rv) && names_result(r) == listing_of(rv));
        r
    }

    fn read_config(&self, name: &str) -> (r: Result<String, String>) {
        let inv = read_config_invocation(name);
        let raw = self.run_invocation(&inv);
        let ghost rv = bytes_result(raw);
        let r = match raw {
            Ok(output) => Ok(output_string(output.as_slice())),
            Err(e) => Err(e),
        };
        assert(self.runner().ran(read_config_call(name@), rv) && text_result(r) == decoded(rv));
        r
    }

    fn write_config(&self, name: &str, content: &str) -> (r: Result<(), String>) {
        let inv = write_config_invocation(name, content);
        let raw = self.run_invocation(&inv);
        let ghost rv = bytes_result(raw);
        let r = match raw {
            Ok(_) => Ok(()),
            Err(e) => Err(e),
        };
        assert(self.runner().ran(write_config_call(name@, content@), rv) && unit_result(r)
            == unit_of(rv));
        r
    }

    fn export_config(&self, name: &str, destination: &str, home: &str) -> (r: Result<(), String>) {
        let read = self.read_config(name);
        let ghost tv = text_result(read);
        let content = match read {
            Ok(c) => c,
            Err(e) => {
                assert(self.read_back(name@, tv) && unit_result(Err::<(), String>(e)) == Err::<
                    (),
                    Seq<char>,
                >(e@));
                return Err(e);
            },
        };
        let r = self.runner.write_export(destination, home, content.as_str());
        assert(self.read_back(name@, tv) && tv == Ok::<Seq<char>, Seq<char>>(content@));
        r
    }

    fn interface_details(&self, name: &str) -> (r: InterfaceDetails) {
        let inv = details_invocation(name);
        let raw = self.run_invocation(&inv);
        let ghost rv = bytes_result(raw);
        let r = match raw {
            Ok(output) => parse_interface_details(output.as_slice()),
            Err(_) => {
                let d = InterfaceDetails::default();
                assert(d@ =~= details_of(None));
                d
            },
        };
        assert(self.runner().ran(details_call(name@), rv) && r@ == details_from_run(rv));
        r
    }

    fn interface_stats(&self, name: &str) -> (r: (u64, u64)) {
        let rx = Self::net_path(name, "/statistics/rx_bytes");
        let tx = Self::net_path(name, "/statistics/tx_bytes");
        let received = self.sysfs_u64(rx.as_str());
        let sent = self.sysfs_u64(tx.as_str());
        let ghost t1 = choose|text: Option<Seq<char>>|
            self.runner().read(rx@, text) && received == sysfs_value(text);
        let ghost t2 = choose|text: Option<Seq<char>>|
            self.runner().read(tx@, text) && sent == sysfs_value(text);
        assert(self.runner().read(net_path_of(name@, "/statistics/rx_bytes"@), t1)
            && self.runner().read(net_path_of(name@, "/statistics/tx_bytes"@), t2) && (received, sent)
            == (sysfs_value(t1), sysfs_value(t2)));
        (received, sent)
    }

    fn interface_exists(&self, name: &str) -> (r: bool) {
        let path = Self::net_path(name, "");
        self.runner.path_exists(path.as_str())
    }

    /// Runs the programs of the action one after the other, as `lifecycle_call` orders
    /// them, and stops at the first that fails.
    fn apply_interface(&self, name: &str, action: InterfaceAction) -> (r: Result<(), String>) {
        let mut outputs: Vec<Vec<u8>> = Vec::new();
        assert(outputs_view(outputs@) =~= Seq::<Seq<u8>>::empty());
        loop
            invariant
                outputs@.len() <= 2,
                forall|o: Result<(), Seq<char>>|
                    lifecycle_outcome(self.runner(), name@, action, outputs_view(outputs@), o)
                        ==> #[trigger] lifecycle_outcome(
                        self.runner(),
                        name@,
                        action,
                        Seq::<Seq<u8>>::empty(),
                        o,
                    ),
            decreases 2 - outputs@.len(),
        {
            let ghost ov = outputs_view(outputs@);
            match lifecycle_invocation(name, action, &outputs) {
                None => {
                    assert(lifecycle_outcome(self.runner(), name@, action, ov, Ok::<(), Seq<char>>(())));
                    return Ok(());
                },
                Some(inv) => {
                    let ghost call = inv@;
                    let raw = self.run_invocation(&inv);
                    match raw {
                        Ok(out) => {
                            let ghost next = ov.push(out@);
                            outputs.push(out);
                            assert(outputs_view(outputs@) =~= next);
                            assert forall|o: Result<(), Seq<char>>|
                                lifecycle_outcome(self.runner(), name@, action, next, o)
                                implies #[trigger] lifecycle_outcome(
                                self.runner(),
                                name@,
                                action,
                                Seq::<Seq<u8>>::empty(),
                                o,
                            ) by {
                                assert(self.runner().ran(call, Ok::<Seq<u8>, Seq<char>>(next.last())));
                                assert(lifecycle_outcome(self.runner(), name@, action, ov, o));
                            }
                        },
                        Err(e) => {
                            assert(self.runner().ran(call, Err::<Seq<u8>, Seq<char>>(e@)));
                            assert(lifecycle_outcome(
                                self.runner(),
                                name@,
                                action,
                                ov,
                                Err::<(), Seq<char>>(e@),
                            ));
                            return Err(e);
                        },
                    }
                },
            }
        }
    }

    fn set_peers(&self, name: &str, configuration: &str) -> (r: Result<(), String>) {
        let inv = set_peers_invocation(name, configuration);
        let raw = self.run_invocation(&inv);
        let ghost rv = bytes_result(raw);
        let r = match raw {
            Ok(_) => Ok(()),
            Err(e) => Err(e),
        };
        assert(self.runner().ran(set_peers_call(name@, configuration@), rv) && unit_result(r)
            == unit_of(rv));
        r
    }

    fn generate_private_key(&self) -> (r: Result<String, String>) {
        let inv = genkey_invocation();
        let raw = self.run_invocation(&inv);
        let ghost rv = bytes_result(raw);
        let r = match raw {
            Ok(output) => Ok(trimmed_output(output.as_slice())),
            Err(e) => Err(e),
        };
        assert(self.runner().ran(genkey_call(), rv) && text_result(r) == trimmed_of(rv));
        r
    }

    fn derive_public_key(&self, private_key: &str) -> (r: Result<String, String>) {
        let inv = pubkey_invocation(private_key);
        let raw = self.run_invocation(&inv);
        let ghost rv = bytes_result(raw);
        let r = match raw {
            Ok(output) => Ok(trimmed_output(output.as_slice())),
            Err(e) => Err(e),
        };
        assert(self.runner().ran(pubkey_call(private_key@), rv) && text_result(r) == trimmed_of(rv));
        r
    }

    fn generate_preshared_key(&self) -> (r: Result<String, String>) {
        let inv = genpsk_invocation();
        let raw = self.run_invocation(&inv);
        let ghost rv = bytes_result(raw);
        let r = match raw {
            Ok(output) => Ok(trimmed_output(output.as_slice())),
            Err(e) => Err(e),
        };
        assert(self.runner().ran(genpsk_call(), rv) && text_result(r) == trimmed_of(rv));
        r
    }
}

// ---------------------------------------------------------------------------
// What each lifecycle action runs
// ---------------------------------------------------------------------------

proof fn lemma_outcome_after_last_run<R: CommandRunner>(
    runner: R,
    name: Seq<char>,
    action: InterfaceAction,
    outputs: Seq<Seq<u8>>,
    o: Result<(), Seq<char>>,
)
    requires
        lifecycle_call(name, action, outputs) is None || outputs.len() >= 2,
    ensures
        lifecycle_outcome(runner, name, action, outputs, o) == (o == Ok::<(), Seq<char>>(())),
{
}

/// The last run of an action decides its outcome.
proof fn lemma_last_run<R: CommandRunner>(
    runner: R,
    name: Seq<char>,
    action: InterfaceAction,
    outputs: Seq<Seq<u8>>,
    call: InvocationModel,
    o: Result<(), Seq<char>>,
)
    requires
        lifecycle_call(name, action, outputs) == Some(call),
        outputs.len() == 1 || action is Up || action is Down,
        outputs.len() <= 1,
    ensures
        lifecycle_outcome(runner, name, action, outputs, o) == exists|
            raw: Result<Seq<u8>, Seq<char>>,
        | runner.ran(call, raw) && o == unit_of(raw),
{
    if lifecycle_outcome(runner, name, action, outputs, o) {
        let raw = choose|raw: Result<Seq<u8>, Seq<char>>|
            #![trigger runner.ran(call, raw)]
            runner.ran(call, raw) && match raw {
                Err(e) => o == Err::<(), Seq<char>>(e),
                Ok(out) => lifecycle_outcome(runner, name, action, outputs.push(out), o),
            };
        if let Ok(out) = raw {
            lemma_outcome_after_last_run(runner, name, action, outputs.push(out), o);
        }
        assert(runner.ran(call, raw) && o == unit_of(raw));
    }
    if exists|raw: Result<Seq<u8>, Seq<char>>| runner.ran(call, raw) && o == unit_of(raw) {
        let raw = choose|raw: Result<Seq<u8>, Seq<char>>|
            runner.ran(call, raw) && o == unit_of(raw);
        if let Ok(out) = raw {
            lemma_outcome_after_last_run(runner, name, action, outputs.push(out), o);
        }
        assert(runner.ran(call, raw) && match raw {
            Err(e) => o == Err::<(), Seq<char>>(e),
            Ok(out) => lifecycle_outcome(runner, name, action, outputs.push(out), o),
        });
    }
}

/// The lifecycle actions run exactly these programs, with root rights, and end as the
/// last of them ended:
/// - Up runs `wg-quick up <name>`, and Down runs `wg-quick down <name>`;
/// - Restart runs `wg-quick down <name>`, and, only if that succeeded,
///   `wg-quick up <name>`;
/// - Sync runs `wg-quick strip <name>`, and, only if that succeeded,
///   `wg syncconf <name> /dev/stdin` with what the first run printed on standard input.
/// A failed run ends the action with its message.
pub proof fn lemma_lifecycle_runs<R: CommandRunner>(
    host: LinuxHost<R>,
    name: Seq<char>,
    o: Result<(), Seq<char>>,
)
    ensures
        host.applied(name, InterfaceAction::Up, o) <==> exists|raw: Result<Seq<u8>, Seq<char>>|
            host.runner().ran(invocation(true, WG_QUICK_BIN@, seq!["up"@, name], None), raw) && o
                == unit_of(raw),
        host.applied(name, InterfaceAction::Down, o) <==> exists|raw: Result<Seq<u8>, Seq<char>>|
            host.runner().ran(invocation(true, WG_QUICK_BIN@, seq!["down"@, name], None), raw)
                && o == unit_of(raw),
        host.applied(name, InterfaceAction::Restart, o) <==> exists|
            raw: Result<Seq<u8>, Seq<char>>,
        |
            host.runner().ran(invocation(true, WG_QUICK_BIN@, seq!["down"@, name], None), raw)
                && match raw {
                Err(e) => o == Err::<(), Seq<char>>(e),
                Ok(_) => exists|next: Result<Seq<u8>, Seq<char>>|
                    host.runner().ran(
                        invocation(true, WG_QUICK_BIN@, seq!["up"@, name], None),
                        next,
                    ) && o == unit_of(next),
            },
        host.applied(name, InterfaceAction::Sync, o) <==> exists|raw: Result<Seq<u8>, Seq<char>>|
            host.runner().ran(invocation(true, WG_QUICK_BIN@, seq!["strip"@, name], None), raw)
                && match raw {
                Err(e) => o == Err::<(), Seq<char>>(e),
                Ok(stripped) => exists|next: Result<Seq<u8>, Seq<char>>|
                    host.runner().ran(
                        invocation(
                            true,
                            WG_BIN@,
                            seq!["syncconf"@, name, "/dev/stdin"@],
                            Some(stripped),
                        ),
                        next,
                    ) && o == unit_of(next),
            },
{
    let runner = host.runner();
    let e = Seq::<Seq<u8>>::empty();
    let up = invocation(true, WG_QUICK_BIN@, seq!["up"@, name], None);
    let down = invocation(true, WG_QUICK_BIN@, seq!["down"@, name], None);
    let strip = invocation(true, WG_QUICK_BIN@, seq!["strip"@, name], None);
    lemma_last_run(runner, name, InterfaceAction::Up, e, up, o);
    lemma_last_run(runner, name, InterfaceAction::Down, e, down, o);
    assert forall|out: Seq<u8>|
        lifecycle_outcome(runner, name, InterfaceAction::Restart, #[trigger] e.push(out), o) == (
        exists|next: Result<Seq<u8>, Seq<char>>| runner.ran(up, next) && o == unit_of(next)) by {
        lemma_last_run(runner, name, InterfaceAction::Restart, e.push(out), up, o);
    }
    assert forall|out: Seq<u8>|
        lifecycle_outcome(runner, name, InterfaceAction::Sync, #[trigger] e.push(out), o) == (
        exists|next: Result<Seq<u8>, Seq<char>>|
            runner.ran(
                invocation(true, WG_BIN@, seq!["syncconf"@, name, "/dev/stdin"@], Some(out)),
                next,
            ) && o == unit_of(next)) by {
        let sync = invocation(true, WG_BIN@, seq!["syncconf"@, name, "/dev/stdin"@], Some(out));
        assert(e.push(out)[0] == out);
        lemma_last_run(runner, name, InterfaceAction::Sync, e.push(out), sync, o);
    }
    assert(lifecycle_call(name, InterfaceAction::Restart, e) == Some(down));
    assert(lifecycle_call(name, InterfaceAction::Sync, e) == Some(strip));
}

} // verus!
