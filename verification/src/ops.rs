//! The WireGuard module: validation, the configuration lifecycle, applying
//! changes to the running interface, and what each application achieved.

use vstd::prelude::*;
use crate::text::{
    chars_le, chars_eq, chars_eq_str, debug_quoted, debug_str, push_chars, push_str, sort_strings,
    split_char, split_chars, string_from_chars, string_le, to_chars,
};
use crate::roundtrip::{
    lemma_parse_serialize_roundtrip, lemma_parsed_is_writable, peer_extras_ok, peer_writable,
};
use crate::conf::{
    ConfModel, peers_text, serialize_conf_spec, parse_conf, parse_conf_spec, serialize_conf, serialize_peers_for_setconf, PeerConf, PeerModel,
    WgConf, peers_view,
};
use crate::dump::{
    parse_dump, parse_dump_spec, InterfaceDump, InterfaceDumpModel, PeerStatus, PeerStatusModel,
    dumps_view, peer_statuses_view,
};
use crate::host::{text_result, unit_result, names_result, CommandRunner, InterfaceAction, InterfaceDetails, InterfaceDetailsModel, LinuxHost, WireGuardHost};

verus! {

broadcast use vstd::string::group_string_axioms;

// ---------------------------------------------------------------------------
// Names
// ---------------------------------------------------------------------------

/// ASCII letters and digits, `_`, `-` and `.`.
pub open spec fn is_name_char(c: char) -> bool {
    ||| 'a' <= c && c <= 'z'
    ||| 'A' <= c && c <= 'Z'
    ||| '0' <= c && c <= '9'
    ||| c == '_' || c == '-' || c == '.'
}

pub open spec fn name_chars(n: Seq<char>) -> bool {
    forall|i: int| 0 <= i < n.len() ==> is_name_char(#[trigger] n[i])
}

pub open spec fn ends_with(s: Seq<char>, suffix: Seq<char>) -> bool {
    s.len() >= suffix.len() && s.subrange(s.len() - suffix.len(), s.len() as int) == suffix
}

/// A configuration file name: a basename under /etc/wireguard of at most 64
/// characters (all ASCII, so as many bytes), ending in `.conf`, not hidden.
pub open spec fn valid_conf_name(n: Seq<char>) -> bool {
    &&& n.len() > 0
    &&& n.len() <= 64
    &&& ends_with(n, ".conf"@)
    &&& name_chars(n)
    &&& n[0] != '.'
}

/// `.` and `..`, which name directories rather than entries.
pub open spec fn is_dot_name(n: Seq<char>) -> bool {
    n == "."@ || n == ".."@
}

/// A Linux interface name: at most 15 characters (bytes) of the safe set, and neither
/// `.` nor `..`.
pub open spec fn valid_iface_name(n: Seq<char>) -> bool {
    &&& n.len() > 0
    &&& n.len() <= 15
    &&& name_chars(n)
    &&& !is_dot_name(n)
}

/// A name made only of the safe characters, and neither `.` nor `..`: what every name
/// handed to the host is, so that no path built from it leaves its directory.
pub open spec fn safe_name(n: Seq<char>) -> bool {
    n.len() > 0 && name_chars(n) && !is_dot_name(n)
}

fn is_dot_name_exec(s: &[char]) -> (b: bool)
    ensures
        b == is_dot_name(s@),
{
    proof {
        reveal_strlit(".");
        reveal_strlit("..");
    }
    let one = s.len() == 1 && s[0] == '.';
    let two = s.len() == 2 && s[0] == '.' && s[1] == '.';
    proof {
        if one {
            assert(s@ =~= "."@);
        }
        if two {
            assert(s@ =~= ".."@);
        }
    }
    one || two
}

fn is_name_char_exec(c: char) -> (b: bool)
    ensures
        b == is_name_char(c),
{
    ('a' <= c && c <= 'z') || ('A' <= c && c <= 'Z') || ('0' <= c && c <= '9') || c == '_' || c
        == '-' || c == '.'
}

fn all_name_chars(n: &[char]) -> (b: bool)
    ensures
        b == name_chars(n@),
{
    let len = n.len();
    let mut i: usize = 0;
    while i < len
        invariant
            i <= len,
            len == n@.len(),
            forall|j: int| 0 <= j < i ==> is_name_char(#[trigger] n@[j]),
        decreases len - i,
    {
        if !is_name_char_exec(n[i]) {
            return false;
        }
        i = i + 1;
    }
    true
}

fn ends_with_exec(s: &[char], suffix: &str) -> (b: bool)
    ensures
        b == ends_with(s@, suffix@),
{
    let suf = to_chars(suffix);
    if s.len() < suf.len() {
        return false;
    }
    chars_eq(&s[s.len() - suf.len()..s.len()], suf.as_slice())
}

pub open spec fn invalid_conf_name_message(name: Seq<char>) -> Seq<char> {
    "非法配置文件名: "@ + debug_quoted(name)
}

pub open spec fn invalid_iface_name_message(name: Seq<char>) -> Seq<char> {
    "非法接口名: "@ + debug_quoted(name)
}

/// Configuration names are basenames under /etc/wireguard.
pub fn validate_conf_name(name: &str) -> (r: Result<(), String>)
    ensures
        valid_conf_name(name@) ==> r is Ok,
        !valid_conf_name(name@) ==> (r matches Err(m) && m@ == invalid_conf_name_message(name@)),
{
    let n = to_chars(name);
    let s = n.as_slice();
    let valid = s.len() > 0 && s.len() <= 64 && ends_with_exec(s, ".conf") && all_name_chars(s)
        && s[0] != '.';
    if valid {
        Ok(())
    } else {
        let mut m = String::new();
        push_str(&mut m, "非法配置文件名: ");
        let q = debug_str(name);
        push_str(&mut m, q.as_str());
        Err(m)
    }
}

/// Linux interface names are at most 15 bytes and use a conservative safe character set.
pub fn validate_iface_name(name: &str) -> (r: Result<(), String>)
    ensures
        valid_iface_name(name@) ==> r is Ok,
        !valid_iface_name(name@) ==> (r matches Err(m) && m@ == invalid_iface_name_message(name@)),
{
    let n = to_chars(name);
    let s = n.as_slice();
    let valid = s.len() > 0 && s.len() <= 15 && all_name_chars(s) && !is_dot_name_exec(s);
    if valid {
        Ok(())
    } else {
        let mut m = String::new();
        push_str(&mut m, "非法接口名: ");
        let q = debug_str(name);
        push_str(&mut m, q.as_str());
        Err(m)
    }
}

// ---------------------------------------------------------------------------
// Export destinations
// ---------------------------------------------------------------------------

/// The normal components of a path: pieces between `/`, without empty pieces and `.`,
/// as `Path::components` gives them after the root.
pub open spec fn normal_pieces(ps: Seq<Seq<char>>) -> Seq<Seq<char>>
    decreases ps.len(),
{
    if ps.len() == 0 {
        Seq::empty()
    } else {
        let r = normal_pieces(ps.drop_last());
        if ps.last().len() == 0 || ps.last() == "."@ {
            r
        } else {
            r.push(ps.last())
        }
    }
}

pub open spec fn path_parts(s: Seq<char>) -> Seq<Seq<char>> {
    normal_pieces(split_char(s, '/'))
}

pub open spec fn is_absolute(s: Seq<char>) -> bool {
    s.len() > 0 && s[0] == '/'
}

/// An export destination inside `home`: both absolute, the destination's components
/// start with those of `home` and are not the same, the last one is a file name, and
/// none of them is `..`.
pub open spec fn export_path_ok(destination: Seq<char>, home: Seq<char>) -> bool {
    let d = path_parts(destination);
    let h = path_parts(home);
    &&& is_absolute(destination)
    &&& is_absolute(home)
    &&& h.len() <= d.len() && d.take(h.len() as int) == h
    &&& d != h
    &&& d.len() > 0 && d.last() != ".."@
    &&& forall|i: int| 0 <= i < d.len() ==> d[i] != ".."@
}

pub open spec fn export_path_message() -> Seq<char> {
    "导出路径必须位于当前用户主目录内"@
}

fn path_parts_exec(s: &[char]) -> (r: Vec<Vec<char>>)
    ensures
        r.deep_view() == path_parts(s@),
{
    let ps = split_chars(s, '/');
    let ghost pv = ps.deep_view();
    let mut out: Vec<Vec<char>> = Vec::new();
    let n = ps.len();
    let mut i: usize = 0;
    while i < n
        invariant
            i <= n,
            n == pv.len(),
            pv == ps.deep_view(),
            pv == split_char(s@, '/'),
            out.deep_view() == normal_pieces(pv.take(i as int)),
        decreases n - i,
    {
        let piece = ps[i].as_slice();
        proof {
            assert(ps@[i as int].deep_view() =~= ps@[i as int]@);
            assert(pv.take(i + 1).drop_last() =~= pv.take(i as int));
            assert(pv.take(i + 1).last() == piece@);
        }
        if !(piece.len() == 0 || chars_eq_str(piece, ".")) {
            let mut v: Vec<char> = Vec::new();
            v.extend_from_slice(piece);
            assert(v@ =~= piece@);
            assert(v.deep_view() =~= v@);
            let ghost before = out.deep_view();
            out.push(v);
            assert(out.deep_view() =~= before.push(piece@));
        }
        i = i + 1;
    }
    assert(pv.take(n as int) =~= pv);
    out
}

fn parts_eq(a: &Vec<Vec<char>>, b: &Vec<Vec<char>>, n: usize) -> (r: bool)
    requires
        n <= a.deep_view().len(),
        n <= b.deep_view().len(),
    ensures
        r == (a.deep_view().take(n as int) == b.deep_view().take(n as int)),
{
    let mut i: usize = 0;
    while i < n
        invariant
            i <= n,
            n <= a.deep_view().len(),
            n <= b.deep_view().len(),
            forall|j: int| 0 <= j < i ==> a.deep_view()[j] == b.deep_view()[j],
        decreases n - i,
    {
        assert(a@[i as int].deep_view() =~= a@[i as int]@);
        assert(b@[i as int].deep_view() =~= b@[i as int]@);
        if !chars_eq(a[i].as_slice(), b[i].as_slice()) {
            assert(a.deep_view().take(n as int)[i as int] != b.deep_view().take(n as int)[i as int]);
            return false;
        }
        i = i + 1;
    }
    assert(a.deep_view().take(n as int) =~= b.deep_view().take(n as int));
    true
}

/// Accepts an export destination only inside the user's home directory.
pub fn validate_export_path(destination: &str, home: &str) -> (r: Result<String, String>)
    ensures
        export_path_ok(destination@, home@) ==> (r matches Ok(p) && p@ == destination@),
        !export_path_ok(destination@, home@) ==> (r matches Err(m) && m@ == export_path_message()),
{
    let dc = to_chars(destination);
    let hc = to_chars(home);
    let d = path_parts_exec(dc.as_slice());
    let h = path_parts_exec(hc.as_slice());
    let ghost dv = d.deep_view();
    let ghost hv = h.deep_view();
    let mut no_parent = true;
    let mut i: usize = 0;
    while i < d.len()
        invariant
            i <= dv.len(),
            dv == d.deep_view(),
            no_parent == (forall|j: int| 0 <= j < i ==> dv[j] != ".."@),
        decreases dv.len() - i,
    {
        assert(d@[i as int].deep_view() =~= d@[i as int]@);
        let is_parent = chars_eq_str(d[i].as_slice(), "..");
        assert(dv[i as int] == d@[i as int]@);
        if is_parent {
            no_parent = false;
            assert(!(forall|j: int| 0 <= j < i + 1 ==> dv[j] != ".."@)) by {
                assert(dv[i as int] == ".."@);
            }
        }
        i = i + 1;
    }
    let absolute = dc.len() > 0 && dc[0] == '/' && hc.len() > 0 && hc[0] == '/';
    let prefix = h.len() <= d.len() && parts_eq(&d, &h, h.len());
    let same = d.len() == h.len() && prefix;
    proof {
        if h.len() <= d.len() {
            assert(hv.take(hv.len() as int) =~= hv);
            if d.len() == h.len() {
                assert(dv.take(dv.len() as int) =~= dv);
            }
        }
    }
    let has_file_name = d.len() > 0 && !chars_eq_str(d[d.len() - 1].as_slice(), "..");
    proof {
        if d.len() > 0 {
            assert(d@[d.len() - 1].deep_view() =~= d@[d.len() - 1]@);
        }
    }
    if absolute && prefix && !same && has_file_name && no_parent {
        Ok(destination.to_owned())
    } else {
        let mut m = String::new();
        push_str(&mut m, "导出路径必须位于当前用户主目录内");
        Err(m)
    }
}

/// The directories between `home` and an export destination inside it, and the
/// destination's file name: the destination's components after those of `home`. The
/// destination must lie inside `home` (both absolute), end in a file name, and pass
/// through no `..`.
pub open spec fn export_layout_spec(destination: Seq<char>, home: Seq<char>) -> Result<
    (Seq<Seq<char>>, Seq<char>),
    Seq<char>,
> {
    let d = path_parts(destination);
    let h = path_parts(home);
    if !(is_absolute(destination) && is_absolute(home) && h.len() <= d.len() && d.take(
        h.len() as int,
    ) == h) {
        Err(export_path_message())
    } else {
        let rel = d.skip(h.len() as int);
        if rel.len() == 0 || rel.last() == ".."@ {
            Err("导出路径缺少文件名"@)
        } else if exists|i: int| 0 <= i < rel.len() - 1 && rel[i] == ".."@ {
            Err("导出路径包含非法目录"@)
        } else {
            Ok((rel.drop_last(), rel.last()))
        }
    }
}

pub open spec fn layout_view(r: Result<(Vec<String>, String), String>) -> Result<
    (Seq<Seq<char>>, Seq<char>),
    Seq<char>,
> {
    match r {
        Ok((dirs, file)) => Ok((dirs.deep_view(), file@)),
        Err(e) => Err(e@),
    }
}

/// Splits an export destination into the directories to walk from `home` and the file
/// name to create there (see `export_layout_spec`).
pub fn export_layout(destination: &str, home: &str) -> (r: Result<(Vec<String>, String), String>)
    ensures
        layout_view(r) == export_layout_spec(destination@, home@),
{
    let dc = to_chars(destination);
    let hc = to_chars(home);
    let d = path_parts_exec(dc.as_slice());
    let h = path_parts_exec(hc.as_slice());
    let ghost dv = d.deep_view();
    let ghost hv = h.deep_view();
    let absolute = dc.len() > 0 && dc[0] == '/' && hc.len() > 0 && hc[0] == '/';
    let prefix = h.len() <= d.len() && parts_eq(&d, &h, h.len());
    proof {
        if h.len() <= d.len() {
            assert(hv.take(hv.len() as int) =~= hv);
        }
    }
    if !(absolute && prefix) {
        let mut m = String::new();
        push_str(&mut m, "导出路径必须位于当前用户主目录内");
        return Err(m);
    }
    let ghost rel = dv.skip(hv.len() as int);
    let start = h.len();
    let n = d.len();
    if start == n || chars_eq_str(d[n - 1].as_slice(), "..") {
        proof {
            if start < n {
                assert(d@[n - 1].deep_view() =~= d@[n - 1]@);
                assert(rel.last() == dv[n - 1]);
            }
        }
        let mut m = String::new();
        push_str(&mut m, "导出路径缺少文件名");
        return Err(m);
    }
    assert(d@[n - 1].deep_view() =~= d@[n - 1]@);
    assert(rel.last() == dv[n - 1]);
    let mut dirs: Vec<String> = Vec::new();
    let mut k: usize = start;
    while k < n - 1
        invariant
            start <= k <= n - 1,
            start == hv.len(),
            n == dv.len(),
            dv == d.deep_view(),
            rel == dv.skip(start as int),
            dirs.deep_view() == rel.take(k - start),
            forall|i: int| 0 <= i < k - start ==> rel[i] != ".."@,
            dv == path_parts(destination@),
            hv == path_parts(home@),
            is_absolute(destination@) && is_absolute(home@),
            hv.len() <= dv.len() && dv.take(hv.len() as int) == hv,
            rel.len() > 0 && rel.last() != ".."@,
        decreases n - 1 - k,
    {
        assert(d@[k as int].deep_view() =~= d@[k as int]@);
        assert(rel[k - start] == dv[k as int]);
        if chars_eq_str(d[k].as_slice(), "..") {
            assert(rel[k - start] == ".."@);
            let mut m = String::new();
            push_str(&mut m, "导出路径包含非法目录");
            return Err(m);
        }
        let ghost before = dirs.deep_view();
        dirs.push(string_from_chars(d[k].as_slice()));
        assert(dirs.deep_view() =~= rel.take(k + 1 - start)) by {
            assert(rel.take(k + 1 - start) =~= before.push(rel[k - start]));
        }
        k = k + 1;
    }
    assert(rel.take(k - start) =~= rel.drop_last());
    let file = string_from_chars(d[n - 1].as_slice());
    Ok((dirs, file))
}

// ---------------------------------------------------------------------------
// Outcomes
// ---------------------------------------------------------------------------

#[derive(Clone, Debug, PartialEq, Eq)]
pub struct ApplyOutcome {
    pub persisted: bool,
    pub runtime_applied: bool,
    pub warnings: Vec<String>,
}

#[verifier::ext_equal]
pub struct OutcomeModel {
    pub persisted: bool,
    pub runtime_applied: bool,
    pub warnings: Seq<Seq<char>>,
}

impl View for ApplyOutcome {
    type V = OutcomeModel;

    open spec fn view(&self) -> OutcomeModel {
        OutcomeModel {
            persisted: self.persisted,
            runtime_applied: self.runtime_applied,
            warnings: self.warnings.deep_view(),
        }
    }
}

pub open spec fn outcome(persisted: bool, runtime_applied: bool, warnings: Seq<Seq<char>>) -> OutcomeModel {
    OutcomeModel { persisted, runtime_applied, warnings }
}

impl ApplyOutcome {
    /// Persisted only.
    pub fn persisted() -> (r: Self)
        ensures
            r@ == outcome(true, false, Seq::empty()),
    {
        let r = ApplyOutcome { persisted: true, runtime_applied: false, warnings: Vec::new() };
        assert(r@ =~= outcome(true, false, Seq::empty()));
        r
    }

    /// Applied to the Runtime Interface only.
    pub fn runtime() -> (r: Self)
        ensures
            r@ == outcome(false, true, Seq::empty()),
    {
        let r = ApplyOutcome { persisted: false, runtime_applied: true, warnings: Vec::new() };
        assert(r@ =~= outcome(false, true, Seq::empty()));
        r
    }

    /// Persisted and applied to the Runtime Interface.
    pub fn persisted_and_runtime() -> (r: Self)
        ensures
            r@ == outcome(true, true, Seq::empty()),
    {
        let r = ApplyOutcome { persisted: true, runtime_applied: true, warnings: Vec::new() };
        assert(r@ =~= outcome(true, true, Seq::empty()));
        r
    }
}

fn with_warning(persisted: bool, runtime_applied: bool, warning: String) -> (r: ApplyOutcome)
    ensures
        r@ == outcome(persisted, runtime_applied, seq![warning@]),
{
    let mut warnings: Vec<String> = Vec::new();
    warnings.push(warning);
    let r = ApplyOutcome { persisted, runtime_applied, warnings };
    assert(r@ =~= outcome(persisted, runtime_applied, seq![warning@]));
    r
}

pub open spec fn result_view(r: Result<(), String>) -> Result<(), Seq<char>> {
    match r {
        Ok(()) => Ok(()),
        Err(e) => Err(e@),
    }
}

/// The outcome of a saved configuration once the interface has been checked and,
/// when running, synchronized.
pub open spec fn config_outcome_spec(interface: Seq<char>, running: bool, sync: Result<(), Seq<char>>) -> OutcomeModel {
    if !running {
        outcome(true, false, seq!["接口 "@ + interface + " 未运行，配置已保存"@])
    } else {
        match sync {
            Ok(()) => outcome(true, true, Seq::empty()),
            Err(e) => outcome(true, false, seq!["配置已保存，热同步失败: "@ + e]),
        }
    }
}

/// The outcome of persisted peers once the interface has been checked and, when running,
/// synchronized.
pub open spec fn peers_outcome_spec(name: Seq<char>, running: bool, sync: Result<(), Seq<char>>) -> OutcomeModel {
    if !running {
        outcome(true, false, seq!["接口 "@ + name + " 未运行，Peer 更改已持久化"@])
    } else {
        match sync {
            Ok(()) => outcome(true, true, Seq::empty()),
            Err(e) => outcome(true, false, seq!["Peer 更改已持久化，热同步失败: "@ + e]),
        }
    }
}

/// Peers applied to the Runtime Interface because no configuration file exists.
pub open spec fn missing_config_outcome_spec(configuration_name: Seq<char>) -> OutcomeModel {
    outcome(
        false,
        true,
        seq!["未找到 "@ + configuration_name + "，Peer 更改仅应用到 Runtime Interface"@],
    )
}

/// What saving a configuration achieved, given whether its interface runs and how the
/// synchronization went (not consulted when it does not run).
pub fn config_outcome(interface: &str, running: bool, sync: Result<(), String>) -> (r: ApplyOutcome)
    ensures
        r@ == config_outcome_spec(interface@, running, result_view(sync)),
{
    if !running {
        let mut m = String::new();
        push_str(&mut m, "接口 ");
        push_str(&mut m, interface);
        push_str(&mut m, " 未运行，配置已保存");
        return with_warning(true, false, m);
    }
    match sync {
        Ok(()) => ApplyOutcome::persisted_and_runtime(),
        Err(error) => {
            let mut m = String::new();
            push_str(&mut m, "配置已保存，热同步失败: ");
            push_str(&mut m, error.as_str());
            with_warning(true, false, m)
        },
    }
}

/// What persisting peers achieved, given whether the interface runs and how the
/// synchronization went (not consulted when it does not run).
pub fn peers_outcome(name: &str, running: bool, sync: Result<(), String>) -> (r: ApplyOutcome)
    ensures
        r@ == peers_outcome_spec(name@, running, result_view(sync)),
{
    if !running {
        let mut m = String::new();
        push_str(&mut m, "接口 ");
        push_str(&mut m, name);
        push_str(&mut m, " 未运行，Peer 更改已持久化");
        return with_warning(true, false, m);
    }
    match sync {
        Ok(()) => ApplyOutcome::persisted_and_runtime(),
        Err(error) => {
            let mut m = String::new();
            push_str(&mut m, "Peer 更改已持久化，热同步失败: ");
            push_str(&mut m, error.as_str());
            with_warning(true, false, m)
        },
    }
}

/// Peers applied at runtime only, because `configuration_name` does not exist.
pub fn missing_config_outcome(configuration_name: &str) -> (r: ApplyOutcome)
    ensures
        r@ == missing_config_outcome_spec(configuration_name@),
{
    let mut m = String::new();
    push_str(&mut m, "未找到 ");
    push_str(&mut m, configuration_name);
    push_str(&mut m, "，Peer 更改仅应用到 Runtime Interface");
    with_warning(false, true, m)
}

/// An Apply Outcome records persistence and runtime synchronization each on its own:
/// a saved change stays reported as persisted whatever happens at runtime, it counts
/// as applied to the Runtime Interface exactly when the interface runs and the
/// synchronization succeeded, and every partial success carries one warning.
pub proof fn lemma_saved_change_outcome(name: Seq<char>, running: bool, sync: Result<(), Seq<char>>)
    ensures
        ({
            let o = config_outcome_spec(name, running, sync);
            &&& o.persisted
            &&& o.runtime_applied == (running && sync is Ok)
            &&& o.warnings.len() == if o.runtime_applied { 0nat } else { 1nat }
        }),
        ({
            let o = peers_outcome_spec(name, running, sync);
            &&& o.persisted
            &&& o.runtime_applied == (running && sync is Ok)
            &&& o.warnings.len() == if o.runtime_applied { 0nat } else { 1nat }
        }),
        ({
            let o = missing_config_outcome_spec(name);
            &&& !o.persisted
            &&& o.runtime_applied
            &&& o.warnings.len() == 1
        }),
{
}

#[derive(Clone, Copy, Debug, PartialEq, Eq, Structural)]
pub enum ApplyMode {
    RuntimeOnly,
    PersistAndSync,
}

#[derive(Clone, Debug, PartialEq, Eq)]
pub struct KeyPair {
    pub private_key: String,
    pub public_key: String,
}

#[derive(Clone, Debug, PartialEq, Eq)]
pub struct EnvCheck {
    pub wg: bool,
    pub wg_quick: bool,
    pub pkexec: bool,
    pub conf_dir_exists: bool,
    pub home: String,
}

// ---------------------------------------------------------------------------
// Interface names of configurations
// ---------------------------------------------------------------------------

/// `str::trim_end_matches(".conf")`: every trailing `.conf` removed.
pub open spec fn conf_stem(n: Seq<char>) -> Seq<char>
    decreases n.len(),
{
    if n.len() >= 5 && ends_with(n, ".conf"@) {
        conf_stem(n.take(n.len() - 5))
    } else {
        n
    }
}

proof fn lemma_conf_stem(n: Seq<char>)
    requires
        n.len() > 0,
        name_chars(n),
        n[0] != '.',
    ensures
        safe_name(conf_stem(n)),
        conf_stem(n).len() <= n.len(),
        conf_stem(n)[0] == n[0],
    decreases n.len(),
{
    reveal_strlit(".conf");
    reveal_strlit(".");
    reveal_strlit("..");
    if n.len() >= 5 && ends_with(n, ".conf"@) {
        let t = n.take(n.len() - 5);
        if t.len() == 0 {
            assert(n.subrange(0, 5) == ".conf"@);
            assert(n[0] == n.subrange(0, 5)[0]);
        } else {
            assert(forall|i: int| 0 <= i < t.len() ==> t[i] == n[i]);
            lemma_conf_stem(t);
        }
    } else {
        assert(n[0] != "."@[0]);
        assert(n[0] != ".."@[0]);
    }
}

/// The interface that a valid configuration name configures is itself made of the
/// safe characters only and is neither `.` nor `..`, so it can be handed to `wg-quick`
/// and looked up under `/sys/class/net`.
pub proof fn lemma_configured_interface_is_safe(name: Seq<char>)
    requires
        valid_conf_name(name),
    ensures
        safe_name(conf_stem(name)),
{
    lemma_conf_stem(name);
}

/// The interface that a configuration file configures.
pub fn conf_interface(name: &str) -> (r: String)
    ensures
        r@ == conf_stem(name@),
{
    let chars = to_chars(name);
    let mut end = chars.len();
    assert(chars@.take(end as int) =~= chars@);
    while end >= 5 && ends_with_exec(&chars[0..end], ".conf")
        invariant
            end <= chars@.len(),
            conf_stem(chars@) == conf_stem(chars@.take(end as int)),
        decreases end,
    {
        assert(chars@.subrange(0, end as int) =~= chars@.take(end as int));
        assert(chars@.take(end as int).take(end - 5) =~= chars@.take(end - 5));
        end = end - 5;
    }
    assert(chars@.subrange(0, end as int) =~= chars@.take(end as int));
    string_from_chars(&chars[0..end])
}

// ---------------------------------------------------------------------------
// Configuration listings
// ---------------------------------------------------------------------------

/// The valid configuration names among `names`, in order.
pub open spec fn keep_valid(names: Seq<Seq<char>>) -> Seq<Seq<char>>
    decreases names.len(),
{
    if names.len() == 0 {
        Seq::empty()
    } else {
        let r = keep_valid(names.drop_last());
        if valid_conf_name(names.last()) {
            r.push(names.last())
        } else {
            r
        }
    }
}

/// `listed` is what `list_configs` makes of the host's `names`: the valid ones, sorted.
pub open spec fn configs_of(names: Seq<Seq<char>>, listed: Seq<Seq<char>>) -> bool {
    &&& vstd::relations::sorted_by(listed, string_le())
    &&& listed.to_multiset() == keep_valid(names).to_multiset()
}

/// `listed` is what some listing of the configuration directory gives after the
/// invalid names are dropped and the rest sorted.
pub open spec fn is_config_listing(listed: Seq<Seq<char>>) -> bool {
    exists|names: Seq<Seq<char>>| configs_of(names, listed)
}

proof fn lemma_keep_valid_valid(names: Seq<Seq<char>>)
    ensures
        forall|i: int| 0 <= i < keep_valid(names).len() ==> valid_conf_name(
            #[trigger] keep_valid(names)[i],
        ),
    decreases names.len(),
{
    if names.len() > 0 {
        let r = keep_valid(names.drop_last());
        lemma_keep_valid_valid(names.drop_last());
        if valid_conf_name(names.last()) {
            assert forall|i: int| 0 <= i < r.push(names.last()).len() implies valid_conf_name(
                #[trigger] r.push(names.last())[i],
            ) by {
                if i < r.len() {
                    assert(r.push(names.last())[i] == r[i]);
                }
            }
        }
    }
}

/// A configuration listing holds valid configuration names only, in ascending order:
/// whatever the directory holds, no name that fails validation is ever listed.
pub proof fn lemma_listing_is_valid_and_sorted(listed: Seq<Seq<char>>)
    requires
        is_config_listing(listed),
    ensures
        forall|i: int| 0 <= i < listed.len() ==> valid_conf_name(#[trigger] listed[i]),
        forall|i: int, j: int| 0 <= i < j < listed.len() ==> chars_le(listed[i], listed[j]),
{
    let names = choose|names: Seq<Seq<char>>| configs_of(names, listed);
    let kept = keep_valid(names);
    lemma_keep_valid_valid(names);
    assert forall|i: int| 0 <= i < listed.len() implies valid_conf_name(#[trigger] listed[i]) by {
        listed.to_multiset_ensures();
        kept.to_multiset_ensures();
        assert(listed.contains(listed[i]));
        assert(listed.to_multiset().count(listed[i]) > 0);
        assert(kept.to_multiset().count(listed[i]) > 0);
        assert(kept.contains(listed[i]));
        let k = choose|k: int| 0 <= k < kept.len() && kept[k] == listed[i];
        assert(valid_conf_name(kept[k]));
    }
    assert forall|i: int, j: int| 0 <= i < j < listed.len() implies chars_le(listed[i], listed[j]) by {
        assert(string_le()(listed[i], listed[j]));
    }
}

/// The valid configuration names, sorted.
pub fn select_configs(names: Vec<String>) -> (r: Vec<String>)
    ensures
        configs_of(names.deep_view(), r.deep_view()),
{
    let ghost nv = names.deep_view();
    let mut kept: Vec<String> = Vec::new();
    let n = names.len();
    let mut i: usize = 0;
    assert(nv.take(0) =~= Seq::<Seq<char>>::empty());
    assert(kept.deep_view() =~= Seq::<Seq<char>>::empty());
    while i < n
        invariant
            i <= n,
            n == nv.len(),
            nv == names.deep_view(),
            kept.deep_view() == keep_valid(nv.take(i as int)),
        decreases n - i,
    {
        proof {
            assert(nv.take(i + 1).drop_last() =~= nv.take(i as int));
            assert(names@[i as int].deep_view() =~= names@[i as int]@);
            assert(nv.take(i + 1).last() == names@[i as int]@);
        }
        match validate_conf_name(names[i].as_str()) {
            Ok(()) => {
                let ghost before = kept.deep_view();
                kept.push(names[i].clone());
                assert(kept.deep_view() =~= before.push(names@[i as int]@));
            },
            Err(_) => {},
        }
        i = i + 1;
    }
    assert(nv.take(n as int) =~= nv);
    sort_strings(kept)
}

// ---------------------------------------------------------------------------
// Keeping the extras of persisted peers
// ---------------------------------------------------------------------------

/// The extras of the last existing peer with this public key (later entries win, as
/// when they are collected into a map).
pub open spec fn existing_extras(existing: Seq<PeerModel>, key: Seq<char>) -> Option<
    Seq<(Seq<char>, Seq<char>)>,
>
    decreases existing.len(),
{
    if existing.len() == 0 {
        None
    } else if existing.last().public_key == key {
        Some(existing.last().extras)
    } else {
        existing_extras(existing.drop_last(), key)
    }
}

/// A new peer without extras of its own takes those of the existing peer with its key.
pub open spec fn keep_extras(existing: Seq<PeerModel>, p: PeerModel) -> PeerModel {
    if p.extras.len() == 0 {
        match existing_extras(existing, p.public_key) {
            Some(e) => PeerModel { extras: e, ..p },
            None => p,
        }
    } else {
        p
    }
}

fn clone_strings(v: &Vec<String>) -> (r: Vec<String>)
    ensures
        r.deep_view() == v.deep_view(),
{
    let mut r: Vec<String> = Vec::new();
    let n = v.len();
    let mut i: usize = 0;
    while i < n
        invariant
            i <= n,
            n == v@.len(),
            r.deep_view() == v.deep_view().take(i as int),
        decreases n - i,
    {
        let ghost before = r.deep_view();
        r.push(v[i].clone());
        assert(v@[i as int].deep_view() =~= v@[i as int]@);
        assert(r.deep_view() =~= before.push(v@[i as int]@));
        assert(v.deep_view().take(i + 1) =~= v.deep_view().take(i as int).push(v@[i as int]@));
        assert(r.deep_view() =~= v.deep_view().take(i + 1));
        i = i + 1;
    }
    assert(v.deep_view().take(n as int) =~= v.deep_view());
    r
}

fn clone_pairs(v: &Vec<(String, String)>) -> (r: Vec<(String, String)>)
    ensures
        r.deep_view() == v.deep_view(),
{
    let mut r: Vec<(String, String)> = Vec::new();
    let n = v.len();
    let mut i: usize = 0;
    while i < n
        invariant
            i <= n,
            n == v@.len(),
            r.deep_view() == v.deep_view().take(i as int),
        decreases n - i,
    {
        let (a, b) = &v[i];
        let ghost before = r.deep_view();
        r.push((a.clone(), b.clone()));
        assert(r.deep_view() =~= before.push((a@, b@)));
        assert(v.deep_view()[i as int] == (a@, b@));
        assert(v.deep_view().take(i + 1) =~= v.deep_view().take(i as int).push((a@, b@)));
        assert(r.deep_view() =~= v.deep_view().take(i + 1));
        i = i + 1;
    }
    assert(v.deep_view().take(n as int) =~= v.deep_view());
    r
}

fn clone_opt(v: &Option<String>) -> (r: Option<String>)
    ensures
        r.deep_view() == v.deep_view(),
{
    match v {
        Some(s) => Some(s.clone()),
        None => None,
    }
}

fn clone_peer(p: &PeerConf) -> (r: PeerConf)
    ensures
        r@ == p@,
{
    let r = PeerConf {
        public_key: p.public_key.clone(),
        preshared_key: clone_opt(&p.preshared_key),
        allowed_ips: clone_strings(&p.allowed_ips),
        endpoint: clone_opt(&p.endpoint),
        persistent_keepalive: p.persistent_keepalive,
        extras: clone_pairs(&p.extras),
    };
    assert(r@ =~= p@);
    r
}

/// The new peers, each without extras of its own given those of the existing peer with
/// the same public key.
pub fn keep_peer_extras(existing: &Vec<PeerConf>, peers: &[PeerConf]) -> (r: Vec<PeerConf>)
    ensures
        peers_view(r@) == peers_view(peers@).map_values(
            |p: PeerModel| keep_extras(peers_view(existing@), p),
        ),
{
    let ghost ev = peers_view(existing@);
    let ghost pv = peers_view(peers@);
    let mut out: Vec<PeerConf> = Vec::new();
    let n = peers.len();
    let mut i: usize = 0;
    while i < n
        invariant
            i <= n,
            n == peers@.len(),
            pv.len() == n,
            ev == peers_view(existing@),
            pv == peers_view(peers@),
            peers_view(out@) == pv.take(i as int).map_values(|p: PeerModel| keep_extras(ev, p)),
        decreases n - i,
    {
        let mut peer = clone_peer(&peers[i]);
        if peer.extras.len() == 0 {
            let m = existing.len();
            let mut j: usize = m;
            let ghost key = peer.public_key@;
            assert(existing@.take(m as int) =~= existing@);
            assert(peers_view(existing@.take(m as int)) =~= ev);
            let mut found = false;
            while j > 0
                invariant_except_break
                    !found,
                    peer@ == pv[i as int],
                    existing_extras(ev, key) == existing_extras(
                        peers_view(existing@.take(j as int)),
                        key,
                    ),
                invariant
                    j <= m,
                    m == existing@.len(),
                    i < n,
                    pv.len() == n,
                    ev == peers_view(existing@),
                    key == pv[i as int].public_key,
                    pv[i as int].extras.len() == 0,
                ensures
                    found ==> peer@ == keep_extras(ev, pv[i as int]),
                    !found ==> peer@ == pv[i as int] && existing_extras(ev, key) is None,
                decreases j,
            {
                let candidate = &existing[j - 1];
                let ghost tv = peers_view(existing@.take(j as int));
                assert(tv.drop_last() =~= peers_view(existing@.take(j - 1)));
                assert(tv.last() == candidate@);
                if crate::text::str_eq(candidate.public_key.as_str(), peer.public_key.as_str()) {
                    peer.extras = clone_pairs(&candidate.extras);
                    found = true;
                    assert(peer@ =~= keep_extras(ev, pv[i as int]));
                    break;
                }
                j = j - 1;
                if j == 0 {
                    assert(existing@.take(0) =~= Seq::<PeerConf>::empty());
                    assert(peers_view(existing@.take(0)) =~= Seq::<PeerModel>::empty());
                }
            }
        }
        proof {
            assert(peer@ == keep_extras(ev, pv[i as int]));
        }
        let ghost before = peers_view(out@);
        out.push(peer);
        proof {
            assert(peers_view(out@) =~= before.push(peer@));
            assert(pv.take(i + 1).map_values(|p: PeerModel| keep_extras(ev, p)) =~= pv.take(
                i as int,
            ).map_values(|p: PeerModel| keep_extras(ev, p)).push(keep_extras(ev, pv[i as int])));
        }
        i = i + 1;
    }
    assert(pv.take(n as int) =~= pv);
    out
}

/// The saved configuration `c` with its Peers replaced by `peers`, each keeping the
/// extras of the saved Peer with its key when it has none of its own.
pub open spec fn with_peers(c: ConfModel, peers: Seq<PeerModel>) -> ConfModel {
    ConfModel { peers: peers.map_values(|p: PeerModel| keep_extras(c.peers, p)), ..c }
}

proof fn lemma_existing_extras_writable(existing: Seq<PeerModel>, key: Seq<char>)
    requires
        forall|j: int| 0 <= j < existing.len() ==> peer_writable(#[trigger] existing[j]),
    ensures
        existing_extras(existing, key) matches Some(e) ==> peer_extras_ok(e),
    decreases existing.len(),
{
    if existing.len() > 0 {
        assert(peer_writable(existing[existing.len() - 1]));
        let d = existing.drop_last();
        assert forall|j: int| 0 <= j < d.len() implies peer_writable(#[trigger] d[j]) by {
            assert(d[j] == existing[j]);
        }
        lemma_existing_extras_writable(d, key);
    }
}

/// Persisting Peers over a saved configuration keeps everything of it but the Peers:
/// the text that is written reads back as the saved interface with the new Peers, each
/// new Peer without extras of its own carrying those of the saved Peer with its key,
/// whenever the new Peers' values can stand in the format.
pub proof fn lemma_persisted_peers_read_back(saved: Seq<char>, peers: Seq<PeerModel>)
    requires
        parse_conf_spec(saved) is Ok,
        forall|j: int| 0 <= j < peers.len() ==> peer_writable(#[trigger] peers[j]),
    ensures
        ({
            let next = with_peers(parse_conf_spec(saved)->Ok_0, peers);
            parse_conf_spec(serialize_conf_spec(next)) == Ok::<ConfModel, Seq<char>>(next)
        }),
{
    let c = parse_conf_spec(saved)->Ok_0;
    lemma_parsed_is_writable(saved);
    let next = with_peers(c, peers);
    assert forall|j: int| 0 <= j < next.peers.len() implies peer_writable(#[trigger] next.peers[j]) by {
        assert(next.peers[j] == keep_extras(c.peers, peers[j]));
        assert(peer_writable(peers[j]));
        lemma_existing_extras_writable(c.peers, peers[j].public_key);
    }
    lemma_parse_serialize_roundtrip(next);
}

// ---------------------------------------------------------------------------
// Interface status
// ---------------------------------------------------------------------------

#[derive(Clone, Debug)]
pub struct InterfaceStatus {
    pub name: String,
    pub running: bool,
    pub public_key: String,
    pub private_key: Option<String>,
    pub listen_port: u16,
    pub fwmark: Option<String>,
    pub addresses: Vec<String>,
    pub mtu: Option<u32>,
    pub rx_bytes: u64,
    pub tx_bytes: u64,
    pub peers: Vec<PeerStatus>,
}

#[verifier::ext_equal]
pub struct InterfaceStatusModel {
    pub name: Seq<char>,
    pub running: bool,
    pub public_key: Seq<char>,
    pub private_key: Option<Seq<char>>,
    pub listen_port: u16,
    pub fwmark: Option<Seq<char>>,
    pub addresses: Seq<Seq<char>>,
    pub mtu: Option<u32>,
    pub rx_bytes: u64,
    pub tx_bytes: u64,
    pub peers: Seq<PeerStatusModel>,
}

impl View for InterfaceStatus {
    type V = InterfaceStatusModel;

    open spec fn view(&self) -> InterfaceStatusModel {
        InterfaceStatusModel {
            name: self.name@,
            running: self.running,
            public_key: self.public_key@,
            private_key: self.private_key.deep_view(),
            listen_port: self.listen_port,
            fwmark: self.fwmark.deep_view(),
            addresses: self.addresses.deep_view(),
            mtu: self.mtu,
            rx_bytes: self.rx_bytes,
            tx_bytes: self.tx_bytes,
            peers: peer_statuses_view(self.peers@),
        }
    }
}

pub open spec fn statuses_view(s: Seq<InterfaceStatus>) -> Seq<InterfaceStatusModel> {
    s.map_values(|x: InterfaceStatus| x@)
}

/// A running interface: what the dump says, its addresses and MTU, and its counters.
pub open spec fn running_status(
    d: InterfaceDumpModel,
    details: InterfaceDetailsModel,
    stats: (u64, u64),
) -> InterfaceStatusModel {
    InterfaceStatusModel {
        name: d.name,
        running: true,
        public_key: d.public_key,
        private_key: d.private_key,
        listen_port: d.listen_port,
        fwmark: d.fwmark,
        addresses: details.addresses,
        mtu: details.mtu,
        rx_bytes: stats.0,
        tx_bytes: stats.1,
        peers: d.peers,
    }
}

/// An interface that has a configuration but does not run.
pub open spec fn offline_status(name: Seq<char>) -> InterfaceStatusModel {
    InterfaceStatusModel {
        name,
        running: false,
        public_key: Seq::empty(),
        private_key: None,
        listen_port: 0,
        fwmark: None,
        addresses: Seq::empty(),
        mtu: None,
        rx_bytes: 0,
        tx_bytes: 0,
        peers: Seq::empty(),
    }
}

/// The names known after the configurations, and the statuses of the configured
/// interfaces that were not known yet, each added once.
pub open spec fn offline_from(known: Seq<Seq<char>>, configs: Seq<Seq<char>>) -> (
    Seq<Seq<char>>,
    Seq<InterfaceStatusModel>,
)
    decreases configs.len(),
{
    if configs.len() == 0 {
        (known, Seq::empty())
    } else {
        let (k, acc) = offline_from(known, configs.drop_last());
        let n = conf_stem(configs.last());
        if k.contains(n) {
            (k, acc)
        } else {
            (k.push(n), acc.push(offline_status(n)))
        }
    }
}

/// Each running interface is reported with what the dump says of it (name, keys,
/// listen port, fwmark, Peers), the addresses and MTU its details give, and its two
/// counters; the running interfaces come first, in the dump's order.
pub proof fn lemma_running_statuses_carry_the_dump(
    ifs: Seq<InterfaceDumpModel>,
    details: Seq<InterfaceDetailsModel>,
    stats: Seq<(u64, u64)>,
    configs: Option<Seq<Seq<char>>>,
)
    requires
        details.len() == ifs.len(),
        stats.len() == ifs.len(),
    ensures
        statuses_spec(ifs, details, stats, configs).len() >= ifs.len(),
        forall|i: int|
            0 <= i < ifs.len() ==> {
                let s = #[trigger] statuses_spec(ifs, details, stats, configs)[i];
                &&& s.name == ifs[i].name
                &&& s.running
                &&& s.public_key == ifs[i].public_key
                &&& s.private_key == ifs[i].private_key
                &&& s.listen_port == ifs[i].listen_port
                &&& s.fwmark == ifs[i].fwmark
                &&& s.peers == ifs[i].peers
                &&& s.addresses == details[i].addresses
                &&& s.mtu == details[i].mtu
                &&& s.rx_bytes == stats[i].0
                &&& s.tx_bytes == stats[i].1
            },
{
    let running = Seq::new(ifs.len(), |i: int| running_status(ifs[i], details[i], stats[i]));
    let all = statuses_spec(ifs, details, stats, configs);
    assert forall|i: int| 0 <= i < ifs.len() implies #[trigger] all[i] == running[i] by {
        match configs {
            Some(c) => {
                let extra = offline_from(ifs.map_values(|d: InterfaceDumpModel| d.name), c).1;
                assert(all == running + extra);
            },
            None => {},
        }
    }
}

pub open spec fn status_names(s: Seq<InterfaceStatusModel>) -> Seq<Seq<char>> {
    s.map_values(|x: InterfaceStatusModel| x.name)
}

/// The configured interfaces that `status_all` adds after the running ones do not run,
/// appear once each, and never repeat a name that was already known.
pub proof fn lemma_offline_statuses_are_fresh(known: Seq<Seq<char>>, configs: Seq<Seq<char>>)
    ensures
        ({
            let (k, acc) = offline_from(known, configs);
            &&& k == known + status_names(acc)
            &&& forall|i: int| 0 <= i < acc.len() ==> !(#[trigger] acc[i]).running
            &&& forall|i: int| 0 <= i < acc.len() ==> !known.contains(#[trigger] acc[i].name)
            &&& forall|i: int, j: int| 0 <= i < j < acc.len() ==> acc[i].name != acc[j].name
        }),
    decreases configs.len(),
{
    if configs.len() == 0 {
        assert(known + status_names(Seq::<InterfaceStatusModel>::empty()) =~= known);
    } else {
        lemma_offline_statuses_are_fresh(known, configs.drop_last());
        let (k, acc) = offline_from(known, configs.drop_last());
        let n = conf_stem(configs.last());
        if !k.contains(n) {
            let acc2 = acc.push(offline_status(n));
            assert(status_names(acc2) =~= status_names(acc).push(n));
            assert(k.push(n) =~= known + status_names(acc2));
            assert forall|i: int| 0 <= i < acc2.len() implies !known.contains(
                #[trigger] acc2[i].name,
            ) by {
                if i == acc.len() {
                    if known.contains(n) {
                        let j = choose|j: int| 0 <= j < known.len() && known[j] == n;
                        assert(k[j] == n);
                    }
                }
            }
            assert forall|i: int, j: int| 0 <= i < j < acc2.len() implies acc2[i].name
                != acc2[j].name by {
                if j == acc.len() {
                    assert(k[known.len() + i] == status_names(acc)[i]);
                    assert(status_names(acc)[i] == acc[i].name);
                }
            }
        }
    }
}

/// The statuses that `status_all` reports for the dumped interfaces with their details
/// and counters, followed by the configured interfaces that do not run (when the
/// configurations could be listed).
pub open spec fn statuses_spec(
    ifs: Seq<InterfaceDumpModel>,
    details: Seq<InterfaceDetailsModel>,
    stats: Seq<(u64, u64)>,
    configs: Option<Seq<Seq<char>>>,
) -> Seq<InterfaceStatusModel> {
    let running = Seq::new(ifs.len(), |i: int| running_status(ifs[i], details[i], stats[i]));
    match configs {
        Some(c) => running + offline_from(ifs.map_values(|d: InterfaceDumpModel| d.name), c).1,
        None => running,
    }
}

fn contains_name(names: &Vec<String>, name: &str) -> (r: bool)
    ensures
        r == names.deep_view().contains(name@),
{
    let n = names.len();
    let mut i: usize = 0;
    while i < n
        invariant
            i <= n,
            n == names@.len(),
            forall|j: int| 0 <= j < i ==> names.deep_view()[j] != name@,
        decreases n - i,
    {
        assert(names.deep_view()[i as int] == names@[i as int]@);
        if crate::text::str_eq(names[i].as_str(), name) {
            return true;
        }
        i = i + 1;
    }
    false
}

fn offline_status_exec(name: String) -> (r: InterfaceStatus)
    ensures
        r@ == offline_status(name@),
{
    let r = InterfaceStatus {
        name,
        running: false,
        public_key: String::new(),
        private_key: None,
        listen_port: 0,
        fwmark: None,
        addresses: Vec::new(),
        mtu: None,
        rx_bytes: 0,
        tx_bytes: 0,
        peers: Vec::new(),
    };
    assert(r@ =~= offline_status(name@));
    r
}

/// Adds the configured interfaces that are not known yet, each once.
fn append_offline(statuses: &mut Vec<InterfaceStatus>, known: &mut Vec<String>, configs: &Vec<String>)
    ensures
        ({
            let (k, acc) = offline_from(old(known).deep_view(), configs.deep_view());
            &&& final(known).deep_view() == k
            &&& statuses_view(final(statuses)@) == statuses_view(old(statuses)@) + acc
        }),
{
    let ghost k0 = known.deep_view();
    let ghost s0 = statuses_view(statuses@);
    let ghost cv = configs.deep_view();
    let n = configs.len();
    let mut i: usize = 0;
    assert(cv.take(0) =~= Seq::<Seq<char>>::empty());
    assert(s0 + Seq::<InterfaceStatusModel>::empty() =~= s0);
    while i < n
        invariant
            i <= n,
            n == cv.len(),
            cv == configs.deep_view(),
            ({
                let (k, acc) = offline_from(k0, cv.take(i as int));
                &&& known.deep_view() == k
                &&& statuses_view(statuses@) == s0 + acc
            }),
        decreases n - i,
    {
        let name = conf_interface(configs[i].as_str());
        proof {
            assert(cv.take(i + 1).drop_last() =~= cv.take(i as int));
            assert(cv.take(i + 1).last() == configs@[i as int]@);
        }
        if !contains_name(known, name.as_str()) {
            let ghost kb = known.deep_view();
            let ghost sb = statuses_view(statuses@);
            known.push(name.clone());
            assert(known.deep_view() =~= kb.push(name@));
            statuses.push(offline_status_exec(name));
            assert(statuses_view(statuses@) =~= sb.push(offline_status(conf_stem(configs@[i as int]@))));
            assert(s0 + offline_from(k0, cv.take(i as int)).1.push(offline_status(conf_stem(configs@[i as int]@)))
                =~= (s0 + offline_from(k0, cv.take(i as int)).1).push(offline_status(conf_stem(configs@[i as int]@))));
        }
        i = i + 1;
    }
    assert(cv.take(n as int) =~= cv);
}

pub open spec fn details_view(d: Seq<InterfaceDetails>) -> Seq<InterfaceDetailsModel> {
    d.map_values(|x: InterfaceDetails| x@)
}

/// The statuses of the dumped interfaces, each with its details and counters, followed
/// by the configured interfaces that do not run when the configurations were listed.
pub fn interface_statuses(
    dumps: Vec<InterfaceDump>,
    details: Vec<InterfaceDetails>,
    stats: Vec<(u64, u64)>,
    configs: Option<Vec<String>>,
) -> (r: Vec<InterfaceStatus>)
    requires
        details@.len() == dumps@.len(),
        stats@.len() == dumps@.len(),
    ensures
        statuses_view(r@) == statuses_spec(
            dumps_view(dumps@),
            details_view(details@),
            stats@,
            configs.deep_view(),
        ),
{
    let ghost ifs = dumps_view(dumps@);
    let ghost dets = details_view(details@);
    let n = dumps.len();
    let mut dumps = dumps;
    let mut details = details;
    let mut statuses: Vec<InterfaceStatus> = Vec::new();
    let mut known: Vec<String> = Vec::new();
    let mut i: usize = 0;
    assert(dumps_view(dumps@) =~= ifs.skip(0));
    assert(details_view(details@) =~= dets.skip(0));
    while i < n
        invariant
            i <= n,
            n == ifs.len(),
            n == dets.len(),
            n == stats@.len(),
            dumps@.len() == n - i,
            details@.len() == n - i,
            dumps_view(dumps@) == ifs.skip(i as int),
            details_view(details@) == dets.skip(i as int),
            statuses@.len() == i,
            statuses_view(statuses@) == Seq::new(
                i as nat,
                |j: int| running_status(ifs[j], dets[j], stats@[j]),
            ),
            known.deep_view() == ifs.take(i as int).map_values(|d: InterfaceDumpModel| d.name),
        decreases n - i,
    {
        let ghost before = dumps@;
        let ghost dbefore = details@;
        assert(dumps_view(before).len() == before.len());
        assert(details_view(dbefore).len() == dbefore.len());
        let d = dumps.remove(0);
        let det = details.remove(0);
        proof {
            assert forall|k: int| 0 <= k < dumps@.len() implies dumps_view(dumps@)[k]
                == ifs.skip(i + 1)[k] by {
                assert(dumps@[k] == before[k + 1]);
                assert(dumps_view(before)[k + 1] == ifs.skip(i as int)[k + 1]);
            }
            assert(dumps_view(dumps@) =~= ifs.skip(i + 1));
            assert forall|k: int| 0 <= k < details@.len() implies details_view(details@)[k]
                == dets.skip(i + 1)[k] by {
                assert(details@[k] == dbefore[k + 1]);
                assert(details_view(dbefore)[k + 1] == dets.skip(i as int)[k + 1]);
            }
            assert(details_view(details@) =~= dets.skip(i + 1));
            assert(dumps_view(before)[0] == ifs.skip(i as int)[0]);
            assert(d@ == ifs[i as int]);
            assert(details_view(dbefore)[0] == dets.skip(i as int)[0]);
            assert(det@ == dets[i as int]);
        }
        let (rx, tx) = stats[i];
        let ghost kb = known.deep_view();
        known.push(d.name.clone());
        proof {
            assert(known.deep_view() =~= kb.push(d.name@));
            assert(ifs.take(i + 1).map_values(|x: InterfaceDumpModel| x.name) =~= ifs.take(
                i as int,
            ).map_values(|x: InterfaceDumpModel| x.name).push(ifs[i as int].name));
        }
        let ghost sb = statuses_view(statuses@);
        let status = InterfaceStatus {
            name: d.name,
            running: true,
            public_key: d.public_key,
            private_key: d.private_key,
            listen_port: d.listen_port,
            fwmark: d.fwmark,
            addresses: det.addresses,
            mtu: det.mtu,
            rx_bytes: rx,
            tx_bytes: tx,
            peers: d.peers,
        };
        assert(status@ =~= running_status(ifs[i as int], dets[i as int], stats@[i as int]));
        let ghost old_statuses = statuses@;
        statuses.push(status);
        proof {
            assert(statuses@ == old_statuses.push(status));
            assert forall|j: int| 0 <= j < i + 1 implies #[trigger] statuses_view(statuses@)[j]
                == running_status(ifs[j], dets[j], stats@[j]) by {
                if j < i {
                    assert(statuses_view(statuses@)[j] == sb[j]);
                }
            }
            assert(statuses_view(statuses@) =~= Seq::new(
                (i + 1) as nat,
                |j: int| running_status(ifs[j], dets[j], stats@[j]),
            ));
        }
        i = i + 1;
    }
    assert(ifs.take(n as int) =~= ifs);
    match configs {
        Some(listed) => {
            append_offline(&mut statuses, &mut known, &listed);
        },
        None => {},
    }
    statuses
}

// ---------------------------------------------------------------------------
// Decisions on what the host reports
// ---------------------------------------------------------------------------

/// The name of the first dumped interface whose name fails validation.
pub open spec fn first_invalid_name(ifs: Seq<InterfaceDumpModel>) -> Option<Seq<char>>
    decreases ifs.len(),
{
    if ifs.len() == 0 {
        None
    } else if !valid_iface_name(ifs[0].name) {
        Some(ifs[0].name)
    } else {
        first_invalid_name(ifs.drop_first())
    }
}

/// The running interfaces that a dump reports: the dump's own error when it could not
/// be taken, the parse error when it does not parse, the validation error of the first
/// interface with an invalid name, and otherwise the parsed interfaces.
pub open spec fn dumped_interfaces(dump: Result<Seq<char>, Seq<char>>) -> Result<
    Seq<InterfaceDumpModel>,
    Seq<char>,
> {
    match dump {
        Err(e) => Err(e),
        Ok(t) => match parse_dump_spec(t) {
            Err(e) => Err(e),
            Ok(ifs) => match first_invalid_name(ifs) {
                Some(n) => Err(invalid_iface_name_message(n)),
                None => Ok(ifs),
            },
        },
    }
}

proof fn lemma_first_invalid_name(ifs: Seq<InterfaceDumpModel>)
    ensures
        first_invalid_name(ifs) is None <==> forall|i: int| 0 <= i < ifs.len() ==> valid_iface_name(
            #[trigger] ifs[i].name,
        ),
    decreases ifs.len(),
{
    if ifs.len() > 0 {
        let d = ifs.drop_first();
        lemma_first_invalid_name(d);
        assert(forall|j: int| 0 <= j < d.len() ==> d[j] == ifs[j + 1]);
        if valid_iface_name(ifs[0].name) {
            if first_invalid_name(d) is None {
                assert forall|i: int| 0 <= i < ifs.len() implies valid_iface_name(
                    #[trigger] ifs[i].name,
                ) by {
                    if i > 0 {
                        assert(ifs[i] == d[i - 1]);
                    }
                }
            } else {
                let j = choose|j: int| 0 <= j < d.len() && !valid_iface_name(#[trigger] d[j].name);
                assert(!valid_iface_name(ifs[j + 1].name));
            }
        }
    }
}

/// The interfaces of a dump as `status_all` takes them (see `dumped_interfaces`).
pub fn interfaces_from_dump(dump: Result<String, String>) -> (r: Result<Vec<InterfaceDump>, String>)
    ensures
        match dumped_interfaces(text_result(dump)) {
            Ok(ifs) => r matches Ok(v) && dumps_view(v@) == ifs,
            Err(e) => r matches Err(m) && m@ == e,
        },
        r matches Ok(v) ==> forall|i: int| 0 <= i < v@.len() ==> valid_iface_name(
            #[trigger] dumps_view(v@)[i].name,
        ),
{
    let text = match dump {
        Ok(t) => t,
        Err(e) => {
            return Err(e);
        },
    };
    let parsed = match parse_dump(text.as_str()) {
        Ok(p) => p,
        Err(e) => {
            return Err(e);
        },
    };
    let ghost ifs = dumps_view(parsed@);
    let n = parsed.len();
    let mut i: usize = 0;
    assert(ifs.skip(0) =~= ifs);
    while i < n
        invariant
            i <= n,
            n == parsed@.len(),
            ifs == dumps_view(parsed@),
            first_invalid_name(ifs.skip(i as int)) == first_invalid_name(ifs),
            forall|j: int| 0 <= j < i ==> valid_iface_name(#[trigger] ifs[j].name),
            parse_dump_spec(text@) == Ok::<Seq<InterfaceDumpModel>, Seq<char>>(ifs),
            text_result(dump) == Ok::<Seq<char>, Seq<char>>(text@),
        decreases n - i,
    {
        let name = parsed[i].name.as_str();
        assert(name@ == ifs[i as int].name);
        assert(ifs.skip(i as int)[0] == ifs[i as int]);
        assert(ifs.skip(i as int).drop_first() =~= ifs.skip(i + 1));
        match validate_iface_name(name) {
            Ok(()) => {},
            Err(e) => {
                assert(first_invalid_name(ifs.skip(i as int)) == Some(ifs[i as int].name));
                return Err(e);
            },
        }
        i = i + 1;
    }
    assert(ifs.skip(n as int) =~= Seq::<InterfaceDumpModel>::empty());
    proof {
        lemma_first_invalid_name(ifs);
    }
    Ok(parsed)
}

/// The refusal of a synchronization: a Runtime Interface that does not run cannot be
/// synchronized.
pub open spec fn sync_refusal_spec(name: Seq<char>, running: bool) -> Option<Seq<char>> {
    if running {
        None
    } else {
        Some("接口 "@ + name + " 未运行，无法热同步"@)
    }
}

pub fn sync_refusal(name: &str, running: bool) -> (r: Option<String>)
    ensures
        match sync_refusal_spec(name@, running) {
            Some(m) => r matches Some(s) && s@ == m,
            None => r is None,
        },
{
    if running {
        None
    } else {
        let mut m = String::new();
        push_str(&mut m, "接口 ");
        push_str(&mut m, name);
        push_str(&mut m, " 未运行，无法热同步");
        Some(m)
    }
}

/// A key pair of a generated private key and what deriving its public key gave: the
/// two keys in their places, or the derivation's error.
pub fn key_pair(private_key: String, public_key: Result<String, String>) -> (r: Result<
    KeyPair,
    String,
>)
    ensures
        match public_key {
            Ok(p) => r matches Ok(kp) && kp.private_key@ == private_key@ && kp.public_key@ == p@,
            Err(e) => r matches Err(m) && m@ == e@,
        },
{
    match public_key {
        Ok(public_key) => Ok(KeyPair { private_key, public_key }),
        Err(e) => Err(e),
    }
}

/// The saved configuration with its Peers replaced by `peers`, each new Peer without
/// extras of its own keeping those of the saved Peer with its key.
pub fn with_kept_extras(configuration: WgConf, peers: &[PeerConf]) -> (r: WgConf)
    ensures
        r@ == with_peers(configuration@, peers_view(peers@)),
{
    let mut configuration = configuration;
    let ghost saved = configuration@;
    let next_peers = keep_peer_extras(&configuration.peers, peers);
    configuration.peers = next_peers;
    assert(configuration@ =~= with_peers(saved, peers_view(peers@)));
    configuration
}

// ---------------------------------------------------------------------------
// What the operations achieve, given what the host answers
// ---------------------------------------------------------------------------

pub open spec fn outcome_result(r: Result<ApplyOutcome, String>) -> Result<OutcomeModel, Seq<char>> {
    match r {
        Ok(o) => Ok(o@),
        Err(e) => Err(e@),
    }
}

pub open spec fn conf_result(r: Result<WgConf, String>) -> Result<ConfModel, Seq<char>> {
    match r {
        Ok(c) => Ok(c@),
        Err(e) => Err(e@),
    }
}

/// A configuration text as it was read, parsed; or the message of the failed read.
pub open spec fn parsed_text(t: Result<Seq<char>, Seq<char>>) -> Result<ConfModel, Seq<char>> {
    match t {
        Ok(text) => parse_conf_spec(text),
        Err(e) => Err(e),
    }
}

/// The configuration listing made of what the host listed: the host's message, or the
/// valid names among those it listed, sorted.
pub open spec fn listing_result<H: WireGuardHost>(
    host: H,
    r: Result<Seq<Seq<char>>, Seq<char>>,
) -> bool {
    exists|raw: Result<Seq<Seq<char>>, Seq<char>>|
        host.listed(raw) && match raw {
            Err(e) => r == Err::<Seq<Seq<char>>, Seq<char>>(e),
            Ok(names) => r is Ok && configs_of(names, r->Ok_0),
        }
}

pub open spec fn listing_option(r: Result<Seq<Seq<char>>, Seq<char>>) -> Option<Seq<Seq<char>>> {
    match r {
        Ok(l) => Some(l),
        Err(_) => None,
    }
}

/// The outcome of a saved configuration (`peers` false) or of saved Peers (`peers` true).
pub open spec fn save_outcome(
    peers: bool,
    name: Seq<char>,
    running: bool,
    sync: Result<(), Seq<char>>,
) -> OutcomeModel {
    if peers {
        peers_outcome_spec(name, running, sync)
    } else {
        config_outcome_spec(name, running, sync)
    }
}

/// After a successful save: whether the interface runs, as the host reports it, and,
/// when it runs, how the host's synchronization of it went, make the outcome.
pub open spec fn after_save<H: WireGuardHost>(
    host: H,
    interface: Seq<char>,
    peers: bool,
    o: OutcomeModel,
) -> bool {
    exists|running: bool|
        host.present(interface, running) && if running {
            exists|sync: Result<(), Seq<char>>|
                host.applied(interface, InterfaceAction::Sync, sync) && o == save_outcome(
                    peers,
                    interface,
                    true,
                    sync,
                )
        } else {
            o == save_outcome(peers, interface, false, Ok(()))
        }
}

/// What `apply_config` achieves: a content that does not parse or a bad name is
/// refused; otherwise exactly `content` is written to `name`, a failed write is
/// reported, and a saved configuration is synchronized when asked.
pub open spec fn config_applied<H: WireGuardHost>(
    host: H,
    name: Seq<char>,
    content: Seq<char>,
    synchronize: bool,
    r: Result<OutcomeModel, Seq<char>>,
) -> bool {
    match parse_conf_spec(content) {
        Err(e) => r == Err::<OutcomeModel, Seq<char>>(e),
        Ok(_) => if !valid_conf_name(name) {
            r == Err::<OutcomeModel, Seq<char>>(invalid_conf_name_message(name))
        } else {
            exists|w: Result<(), Seq<char>>|
                host.wrote(name, content, w) && match w {
                    Err(e) => r == Err::<OutcomeModel, Seq<char>>(e),
                    Ok(()) => r is Ok && if synchronize {
                        after_save(host, conf_stem(name), false, r->Ok_0)
                    } else {
                        r->Ok_0 == outcome(true, false, Seq::empty())
                    },
                }
        },
    }
}

/// Peers applied at runtime only: `wg setconf` gets exactly their setconf text.
pub open spec fn peers_set_at_runtime<H: WireGuardHost>(
    host: H,
    name: Seq<char>,
    peers: Seq<PeerModel>,
    done: OutcomeModel,
    r: Result<OutcomeModel, Seq<char>>,
) -> bool {
    exists|s: Result<(), Seq<char>>|
        host.peers_set(name, peers_text(peers), s) && match s {
            Err(e) => r == Err::<OutcomeModel, Seq<char>>(e),
            Ok(()) => r == Ok::<OutcomeModel, Seq<char>>(done),
        }
}

/// What `apply_peers` achieves: a bad name is refused; RuntimeOnly hands the Peers to
/// `wg setconf`; PersistAndSync does the same when `<name>.conf` is not listed, and
/// otherwise reads it, writes back exactly its text with the Peers replaced (see
/// `with_peers`), and synchronizes the interface when it runs.
pub open spec fn peers_applied<H: WireGuardHost>(
    host: H,
    name: Seq<char>,
    peers: Seq<PeerModel>,
    mode: ApplyMode,
    r: Result<OutcomeModel, Seq<char>>,
) -> bool {
    let cn = name + ".conf"@;
    if !valid_iface_name(name) {
        r == Err::<OutcomeModel, Seq<char>>(invalid_iface_name_message(name))
    } else if mode == ApplyMode::RuntimeOnly {
        peers_set_at_runtime(host, name, peers, outcome(false, true, Seq::empty()), r)
    } else if !valid_conf_name(cn) {
        r == Err::<OutcomeModel, Seq<char>>(invalid_conf_name_message(cn))
    } else {
        exists|l: Result<Seq<Seq<char>>, Seq<char>>|
            listing_result(host, l) && match l {
                Err(e) => r == Err::<OutcomeModel, Seq<char>>(e),
                Ok(listed) => if !listed.contains(cn) {
                    peers_set_at_runtime(host, name, peers, missing_config_outcome_spec(cn), r)
                } else {
                    exists|t: Result<Seq<char>, Seq<char>>|
                        host.read_back(cn, t) && match parsed_text(t) {
                            Err(e) => r == Err::<OutcomeModel, Seq<char>>(e),
                            Ok(c) => exists|w: Result<(), Seq<char>>|
                                host.wrote(cn, serialize_conf_spec(with_peers(c, peers)), w)
                                    && match w {
                                    Err(e) => r == Err::<OutcomeModel, Seq<char>>(e),
                                    Ok(()) => r is Ok && after_save(host, name, true, r->Ok_0),
                                },
                        }
                },
            }
    }
}

/// A written Peer carries what was asked of it: its key, preshared key, allowed IPs,
/// endpoint and keepalive, and its extras when it has any of its own.
pub open spec fn carries_peer(x: PeerModel, p: PeerModel) -> bool {
    &&& x.public_key == p.public_key
    &&& x.preshared_key == p.preshared_key
    &&& x.allowed_ips == p.allowed_ips
    &&& x.endpoint == p.endpoint
    &&& x.persistent_keepalive == p.persistent_keepalive
    &&& p.extras.len() > 0 ==> x.extras == p.extras
}

/// `written` is `saved` with its Peers replaced by `peers`: read back, it has the saved
/// `[Interface]` section unchanged and exactly the new Peers, in order.
pub open spec fn persisted_over(saved: Seq<char>, written: Seq<char>, peers: Seq<PeerModel>) -> bool {
    &&& parse_conf_spec(saved) is Ok
    &&& parse_conf_spec(written) is Ok
    &&& parse_conf_spec(written)->Ok_0.interface == parse_conf_spec(saved)->Ok_0.interface
    &&& parse_conf_spec(written)->Ok_0.peers.len() == peers.len()
    &&& forall|j: int|
        0 <= j < peers.len() ==> carries_peer(
            #[trigger] parse_conf_spec(written)->Ok_0.peers[j],
            peers[j],
        )
}

/// Persisting Peers changes nothing of a saved configuration but its Peers: when
/// `apply_peers` in PersistAndSync mode succeeds, either the configuration was not
/// listed and the Peers were handed to `wg setconf` alone, or the text it wrote back
/// reads as the text it read with the same `[Interface]` section (addresses, port,
/// keys, hooks and extras alike) and exactly the new Peers, whenever their values can
/// stand in the format.
#[verifier::spinoff_prover]
pub proof fn lemma_persisting_peers_keeps_the_interface<H: WireGuardHost>(
    host: H,
    name: Seq<char>,
    peers: Seq<PeerModel>,
    r: Result<OutcomeModel, Seq<char>>,
)
    requires
        peers_applied(host, name, peers, ApplyMode::PersistAndSync, r),
        r is Ok,
        forall|j: int| 0 <= j < peers.len() ==> peer_writable(#[trigger] peers[j]),
    ensures
        (exists|listed: Seq<Seq<char>>, s: Result<(), Seq<char>>|
            listing_result(host, Ok(listed)) && !listed.contains(name + ".conf"@)
                && host.peers_set(name, peers_text(peers), s) && s is Ok)
            || (exists|saved: Seq<char>, written: Seq<char>, w: Result<(), Seq<char>>|
            host.read_back(name + ".conf"@, Ok(saved)) && host.wrote(name + ".conf"@, written, w)
                && w is Ok && persisted_over(saved, written, peers)),
{
    let cn = name + ".conf"@;
    let l = choose|l: Result<Seq<Seq<char>>, Seq<char>>|
        listing_result(host, l) && match l {
            Err(e) => r == Err::<OutcomeModel, Seq<char>>(e),
            Ok(listed) => if !listed.contains(cn) {
                peers_set_at_runtime(host, name, peers, missing_config_outcome_spec(cn), r)
            } else {
                exists|t: Result<Seq<char>, Seq<char>>|
                    host.read_back(cn, t) && match parsed_text(t) {
                        Err(e) => r == Err::<OutcomeModel, Seq<char>>(e),
                        Ok(c) => exists|w: Result<(), Seq<char>>|
                            host.wrote(cn, serialize_conf_spec(with_peers(c, peers)), w)
                                && match w {
                                Err(e) => r == Err::<OutcomeModel, Seq<char>>(e),
                                Ok(()) => r is Ok && after_save(host, name, true, r->Ok_0),
                            },
                    }
            },
        };
    assert(listing_result(host, l));
    assert(l is Ok);
    let listed = l->Ok_0;
    if !listed.contains(cn) {
        assert(peers_set_at_runtime(host, name, peers, missing_config_outcome_spec(cn), r));
        let s = choose|s: Result<(), Seq<char>>|
            host.peers_set(name, peers_text(peers), s) && match s {
                Err(e) => r == Err::<OutcomeModel, Seq<char>>(e),
                Ok(()) => r == Ok::<OutcomeModel, Seq<char>>(missing_config_outcome_spec(cn)),
            };
        assert(s is Ok);
    } else {
        let t = choose|t: Result<Seq<char>, Seq<char>>|
            host.read_back(cn, t) && match parsed_text(t) {
                Err(e) => r == Err::<OutcomeModel, Seq<char>>(e),
                Ok(c) => exists|w: Result<(), Seq<char>>|
                    host.wrote(cn, serialize_conf_spec(with_peers(c, peers)), w) && match w {
                        Err(e) => r == Err::<OutcomeModel, Seq<char>>(e),
                        Ok(()) => r is Ok && after_save(host, name, true, r->Ok_0),
                    },
            };
        assert(parsed_text(t) is Ok);
        let saved = t->Ok_0;
        let c = parsed_text(t)->Ok_0;
        assert(parse_conf_spec(saved) == Ok::<ConfModel, Seq<char>>(c));
        let written = serialize_conf_spec(with_peers(c, peers));
        let w = choose|w: Result<(), Seq<char>>|
            host.wrote(cn, written, w) && match w {
                Err(e) => r == Err::<OutcomeModel, Seq<char>>(e),
                Ok(()) => r is Ok && after_save(host, name, true, r->Ok_0),
            };
        assert(w is Ok);
        lemma_persisted_peers_read_back(saved, peers);
        let next = with_peers(c, peers);
        assert forall|j: int| 0 <= j < peers.len() implies carries_peer(
            #[trigger] parse_conf_spec(written)->Ok_0.peers[j],
            peers[j],
        ) by {
            assert(next.peers[j] == keep_extras(c.peers, peers[j]));
        }
        assert(persisted_over(saved, written, peers));
    }
}

pub open spec fn keypair_result(r: Result<KeyPair, String>) -> Result<
    (Seq<char>, Seq<char>),
    Seq<char>,
> {
    match r {
        Ok(kp) => Ok((kp.private_key@, kp.public_key@)),
        Err(e) => Err(e@),
    }
}

/// A key pair whose private key is `private_key`: the public key is what the host
/// derived from exactly that key, or the derivation's message.
pub open spec fn key_derived<H: WireGuardHost>(
    host: H,
    private_key: Seq<char>,
    r: Result<(Seq<char>, Seq<char>), Seq<char>>,
) -> bool {
    exists|d: Result<Seq<char>, Seq<char>>|
        host.public_key_made(private_key, d) && match d {
            Err(e) => r == Err::<(Seq<char>, Seq<char>), Seq<char>>(e),
            Ok(pk) => r == Ok::<(Seq<char>, Seq<char>), Seq<char>>((private_key, pk)),
        }
}

/// What `generate_keypair` gives: the host's generated private key with the public key
/// derived from it, or the message of whichever step failed.
pub open spec fn keypair_made<H: WireGuardHost>(
    host: H,
    r: Result<(Seq<char>, Seq<char>), Seq<char>>,
) -> bool {
    exists|p: Result<Seq<char>, Seq<char>>|
        host.private_key_made(p) && match p {
            Err(e) => r == Err::<(Seq<char>, Seq<char>), Seq<char>>(e),
            Ok(k) => key_derived(host, k, r),
        }
}

pub open spec fn statuses_result(r: Result<Vec<InterfaceStatus>, String>) -> Result<
    Seq<InterfaceStatusModel>,
    Seq<char>,
> {
    match r {
        Ok(s) => Ok(statuses_view(s@)),
        Err(e) => Err(e@),
    }
}

/// What `status_all` reports: the dump's, the parse's or the first bad name's error;
/// otherwise each dumped interface with the details and counters the host reports of
/// it, then the configured interfaces that do not run, when the listing succeeded.
pub open spec fn statuses_reported<H: WireGuardHost>(
    host: H,
    r: Result<Seq<InterfaceStatusModel>, Seq<char>>,
) -> bool {
    exists|dump: Result<Seq<char>, Seq<char>>|
        host.dumped(dump) && match dumped_interfaces(dump) {
            Err(e) => r == Err::<Seq<InterfaceStatusModel>, Seq<char>>(e),
            Ok(ifs) => exists|
                details: Seq<InterfaceDetailsModel>,
                stats: Seq<(u64, u64)>,
                listing: Result<Seq<Seq<char>>, Seq<char>>,
            |
                {
                    &&& details.len() == ifs.len()
                    &&& stats.len() == ifs.len()
                    &&& forall|i: int|
                        0 <= i < ifs.len() ==> host.detailed(ifs[i].name, #[trigger] details[i])
                            && host.counted(ifs[i].name, stats[i])
                    &&& listing_result(host, listing)
                    &&& r == Ok::<Seq<InterfaceStatusModel>, Seq<char>>(
                        statuses_spec(ifs, details, stats, listing_option(listing)),
                    )
                },
        }
}

// ---------------------------------------------------------------------------
// The WireGuard module
// ---------------------------------------------------------------------------

/// Callers express WireGuard intent; the host adapter owns the Linux mechanics.
pub struct WireGuard<H> {
    host: H,
}

impl<H> WireGuard<H> {
    pub fn new(host: H) -> (r: Self)
        ensures
            r.host() == host,
    {
        WireGuard { host }
    }

    pub closed spec fn host(&self) -> H {
        self.host
    }

    /// The host adapter this module drives.
    pub fn host_ref(&self) -> (r: &H)
        ensures
            *r == self.host(),
    {
        &self.host
    }
}

/// The WireGuard module driving this machine through `runner`.
pub fn linux<R: CommandRunner>(runner: R) -> (r: WireGuard<LinuxHost<R>>)
    ensures
        r.host().runner() == runner,
{
    WireGuard::new(LinuxHost::with_runner(runner))
}

impl<H: WireGuardHost> WireGuard<H> {
    /// Every interface: those that run, with details and counters, then the configured
    /// ones that do not run.
    #[verifier::spinoff_prover]
    #[verifier::rlimit(30)]
    pub fn status_all(&self) -> (r: Result<Vec<InterfaceStatus>, String>)
        ensures
            statuses_reported(self.host(), statuses_result(r)),
    {
        let dump = self.host.show_all_dump();
        let ghost dv = text_result(dump);
        assert(self.host().dumped(dv));
        let parsed = match interfaces_from_dump(dump) {
            Ok(p) => p,
            Err(e) => {
                return Err(e);
            },
        };
        let ghost ifs = dumps_view(parsed@);
        assert(dumped_interfaces(dv) == Ok::<Seq<InterfaceDumpModel>, Seq<char>>(ifs));
        let n = parsed.len();
        let mut details: Vec<InterfaceDetails> = Vec::new();
        let mut stats: Vec<(u64, u64)> = Vec::new();
        let mut i: usize = 0;
        while i < n
            invariant
                i <= n,
                n == parsed@.len(),
                ifs == dumps_view(parsed@),
                details@.len() == i,
                stats@.len() == i,
                forall|j: int| 0 <= j < n ==> valid_iface_name(#[trigger] ifs[j].name),
                forall|j: int|
                    0 <= j < i ==> self.host().detailed(
                        ifs[j].name,
                        #[trigger] details_view(details@)[j],
                    ) && self.host().counted(ifs[j].name, stats@[j]),
            decreases n - i,
        {
            let name = parsed[i].name.as_str();
            assert(name@ == ifs[i as int].name);
            let ghost before_details = details_view(details@);
            let ghost before_stats = stats@;
            let d = self.host.interface_details(name);
            let c = self.host.interface_stats(name);
            details.push(d);
            stats.push(c);
            assert(details_view(details@) =~= before_details.push(d@));
            assert(stats@ =~= before_stats.push(c));
            i = i + 1;
        }
        let ghost dets = details_view(details@);
        let ghost sv = stats@;
        assert(ifs.len() == n);
        assert forall|j: int| 0 <= j < ifs.len() implies self.host().detailed(
            ifs[j].name,
            #[trigger] dets[j],
        ) && self.host().counted(ifs[j].name, sv[j]) by {
            assert(self.host().detailed(ifs[j].name, details_view(details@)[j]));
        }
        let listing = self.list_configs();
        let ghost lv = names_result(listing);
        let configs = match listing {
            Ok(listed) => Some(listed),
            Err(_) => None,
        };
        let ghost cv = configs.deep_view();
        assert(cv == listing_option(lv));
        let statuses = interface_statuses(parsed, details, stats, configs);
        assert(statuses_view(statuses@) == statuses_spec(ifs, dets, sv, cv));
        assert(listing_result(self.host(), lv));
        assert(dets.len() == ifs.len() && sv.len() == ifs.len());
        let r: Result<Vec<InterfaceStatus>, String> = Ok(statuses);
        proof {
            let rv = statuses_result(r);
            assert(rv == Ok::<Seq<InterfaceStatusModel>, Seq<char>>(
                statuses_spec(ifs, dets, sv, listing_option(lv)),
            ));
            assert({
                &&& dets.len() == ifs.len()
                &&& sv.len() == ifs.len()
                &&& forall|j: int|
                    0 <= j < ifs.len() ==> self.host().detailed(ifs[j].name, #[trigger] dets[j])
                        && self.host().counted(ifs[j].name, sv[j])
                &&& listing_result(self.host(), lv)
                &&& rv == Ok::<Seq<InterfaceStatusModel>, Seq<char>>(
                    statuses_spec(ifs, dets, sv, listing_option(lv)),
                )
            });
        }
        r
    }

    /// The configuration files under /etc/wireguard with valid names, sorted.
    pub fn list_configs(&self) -> (r: Result<Vec<String>, String>)
        ensures
            listing_result(self.host(), names_result(r)),
            r matches Ok(v) ==> is_config_listing(v.deep_view()),
    {
        let raw = self.host.list_config_names();
        let ghost rv = names_result(raw);
        match raw {
            Ok(names) => {
                let ghost nv = names.deep_view();
                let listed = select_configs(names);
                assert(configs_of(nv, listed.deep_view()));
                assert(is_config_listing(listed.deep_view()));
                let r: Result<Vec<String>, String> = Ok(listed);
                assert(self.host().listed(rv) && rv == Ok::<Seq<Seq<char>>, Seq<char>>(nv));
                assert(listing_result(self.host(), names_result(r)));
                r
            },
            Err(e) => {
                let r: Result<Vec<String>, String> = Err(e);
                assert(self.host().listed(rv));
                assert(listing_result(self.host(), names_result(r)));
                r
            },
        }
    }

    /// The text of a configuration file.
    pub fn read_config(&self, name: &str) -> (r: Result<String, String>)
        ensures
            !valid_conf_name(name@) ==> (r matches Err(m) && m@ == invalid_conf_name_message(
                name@,
            )),
            valid_conf_name(name@) ==> self.host().read_back(name@, text_result(r)),
    {
        match validate_conf_name(name) {
            Ok(()) => {},
            Err(e) => {
                return Err(e);
            },
        }
        self.host.read_config(name)
    }

    fn read_config_parsed(&self, name: &str) -> (r: Result<WgConf, String>)
        requires
            valid_conf_name(name@),
        ensures
            r matches Ok(c) ==> exists|text: Seq<char>| parse_conf_spec(text) == Ok::<
                ConfModel,
                Seq<char>,
            >(c@),
            exists|t: Result<Seq<char>, Seq<char>>|
                self.host().read_back(name@, t) && conf_result(r) == parsed_text(t),
    {
        let read = self.read_config(name);
        let ghost tv = text_result(read);
        let r = match read {
            Ok(text) => {
                let parsed = parse_conf(text.as_str());
                proof {
                    if parsed is Ok {
                        assert(parse_conf_spec(text@) == Ok::<ConfModel, Seq<char>>(
                            parsed->Ok_0@,
                        ));
                    }
                }
                parsed
            },
            Err(e) => Err(e),
        };
        assert(self.host().read_back(name@, tv) && conf_result(r) == parsed_text(tv));
        r
    }

    fn write_config(&self, name: &str, content: &str) -> (r: Result<(), String>)
        ensures
            !valid_conf_name(name@) ==> (r matches Err(m) && m@ == invalid_conf_name_message(
                name@,
            )),
            r is Ok ==> valid_conf_name(name@),
            valid_conf_name(name@) ==> self.host().wrote(name@, content@, unit_result(r)),
    {
        match validate_conf_name(name) {
            Ok(()) => {},
            Err(e) => {
                return Err(e);
            },
        }
        self.host.write_config(name, content)
    }

    fn write_config_parsed(&self, name: &str, configuration: &WgConf) -> (r: Result<(), String>)
        ensures
            !valid_conf_name(name@) ==> (r matches Err(m) && m@ == invalid_conf_name_message(
                name@,
            )),
            r is Ok ==> valid_conf_name(name@),
            valid_conf_name(name@) ==> self.host().wrote(
                name@,
                serialize_conf_spec(configuration@),
                unit_result(r),
            ),
    {
        let text = serialize_conf(configuration);
        self.write_config(name, text.as_str())
    }

    /// Persists an Interface Configuration and, when asked, synchronizes its Runtime
    /// Interface. Persistence is reported even when synchronization fails.
    pub fn apply_config(&self, name: &str, content: &str, synchronize: bool) -> (r: Result<
        ApplyOutcome,
        String,
    >)
        ensures
            config_applied(self.host(), name@, content@, synchronize, outcome_result(r)),
            parse_conf_spec(content@) matches Err(e) ==> (r matches Err(m) && m@ == e),
            parse_conf_spec(content@) is Ok && !valid_conf_name(name@) ==> (r matches Err(m)
                && m@ == invalid_conf_name_message(name@)),
    {
        match parse_conf(content) {
            Ok(_) => {},
            Err(e) => {
                return Err(e);
            },
        }
        let written = self.write_config(name, content);
        let ghost wv = unit_result(written);
        match written {
            Ok(()) => {},
            Err(e) => {
                proof {
                    if valid_conf_name(name@) {
                        assert(self.host().wrote(name@, content@, wv));
                    }
                }
                return Err(e);
            },
        }
        assert(self.host().wrote(name@, content@, wv) && wv == Ok::<(), Seq<char>>(()));
        if !synchronize {
            return Ok(ApplyOutcome::persisted());
        }
        let interface = conf_interface(name);
        proof {
            lemma_configured_interface_is_safe(name@);
        }
        let running = self.host.interface_exists(interface.as_str());
        let sync = if running {
            self.host.apply_interface(interface.as_str(), InterfaceAction::Sync)
        } else {
            Ok(())
        };
        let ghost sv = unit_result(sync);
        let o = config_outcome(interface.as_str(), running, sync);
        assert(self.host().present(conf_stem(name@), running));
        if running {
            assert(self.host().applied(conf_stem(name@), InterfaceAction::Sync, sv));
            assert(o@ == save_outcome(false, conf_stem(name@), true, sv));
        } else {
            assert(o@ == save_outcome(false, conf_stem(name@), false, Ok(())));
        }
        assert(after_save(self.host(), conf_stem(name@), false, o@));
        Ok(o)
    }

    /// Exports a configuration to a destination inside `home`.
    pub fn export_config(&self, name: &str, destination: &str, home: &str) -> (r: Result<
        (),
        String,
    >)
        ensures
            !valid_conf_name(name@) ==> (r matches Err(m) && m@ == invalid_conf_name_message(
                name@,
            )),
            valid_conf_name(name@) && !export_path_ok(destination@, home@) ==> (r matches Err(m)
                && m@ == export_path_message()),
            valid_conf_name(name@) && export_path_ok(destination@, home@) ==> self.host().exported_to(
                name@,
                destination@,
                home@,
                unit_result(r),
            ),
    {
        match validate_conf_name(name) {
            Ok(()) => {},
            Err(e) => {
                return Err(e);
            },
        }
        let destination = match validate_export_path(destination, home) {
            Ok(d) => d,
            Err(e) => {
                return Err(e);
            },
        };
        self.host.export_config(name, destination.as_str(), home)
    }

    /// Applies one lifecycle action to a Runtime Interface.
    pub fn interface_action(&self, name: &str, action: InterfaceAction) -> (r: Result<(), String>)
        ensures
            !valid_iface_name(name@) ==> (r matches Err(m) && m@ == invalid_iface_name_message(
                name@,
            )),
            valid_iface_name(name@) && action != InterfaceAction::Sync ==> self.host().applied(
                name@,
                action,
                unit_result(r),
            ),
            valid_iface_name(name@) && action == InterfaceAction::Sync ==> exists|running: bool|
                self.host().present(name@, running) && match sync_refusal_spec(name@, running) {
                    Some(m) => r matches Err(e) && e@ == m,
                    None => self.host().applied(name@, action, unit_result(r)),
                },
    {
        match validate_iface_name(name) {
            Ok(()) => {},
            Err(e) => {
                return Err(e);
            },
        }
        if action == InterfaceAction::Sync {
            let running = self.host.interface_exists(name);
            match sync_refusal(name, running) {
                Some(m) => {
                    assert(self.host().present(name@, running));
                    return Err(m);
                },
                None => {},
            }
            let r = self.host.apply_interface(name, action);
            assert(self.host().present(name@, running));
            return r;
        }
        self.host.apply_interface(name, action)
    }

    /// Applies the whole Peer collection according to the Apply Mode.
    pub fn apply_peers(&self, name: &str, peers: &[PeerConf], mode: ApplyMode) -> (r: Result<
        ApplyOutcome,
        String,
    >)
        ensures
            peers_applied(self.host(), name@, peers_view(peers@), mode, outcome_result(r)),
            !valid_iface_name(name@) ==> (r matches Err(m) && m@ == invalid_iface_name_message(
                name@,
            )),
            valid_iface_name(name@) && mode == ApplyMode::PersistAndSync && !valid_conf_name(
                name@ + ".conf"@,
            ) ==> (r matches Err(m) && m@ == invalid_conf_name_message(name@ + ".conf"@)),
    {
        let ghost pv = peers_view(peers@);
        match validate_iface_name(name) {
            Ok(()) => {},
            Err(e) => {
                return Err(e);
            },
        }
        if mode == ApplyMode::RuntimeOnly {
            let set = self.set_peers(name, peers);
            let ghost sv = unit_result(set);
            assert(self.host().peers_set(name@, peers_text(pv), sv));
            match set {
                Ok(()) => {},
                Err(e) => {
                    return Err(e);
                },
            }
            return Ok(ApplyOutcome::runtime());
        }
        let mut configuration_name = String::new();
        push_str(&mut configuration_name, name);
        push_str(&mut configuration_name, ".conf");
        let ghost cn = configuration_name@;
        match validate_conf_name(configuration_name.as_str()) {
            Ok(()) => {},
            Err(e) => {
                return Err(e);
            },
        }
        let listing = self.list_configs();
        let ghost lv = names_result(listing);
        assert(listing_result(self.host(), lv));
        let listed = match listing {
            Ok(l) => l,
            Err(e) => {
                return Err(e);
            },
        };
        assert(lv == Ok::<Seq<Seq<char>>, Seq<char>>(listed.deep_view()));
        if !contains_name(&listed, configuration_name.as_str()) {
            let set = self.set_peers(name, peers);
            let ghost sv = unit_result(set);
            assert(self.host().peers_set(name@, peers_text(pv), sv));
            match set {
                Ok(()) => {},
                Err(e) => {
                    return Err(e);
                },
            }
            return Ok(missing_config_outcome(configuration_name.as_str()));
        }
        let parsed = self.read_config_parsed(configuration_name.as_str());
        let ghost tv = choose|t: Result<Seq<char>, Seq<char>>|
            self.host().read_back(cn, t) && conf_result(parsed) == parsed_text(t);
        assert(self.host().read_back(cn, tv));
        let configuration = match parsed {
            Ok(c) => c,
            Err(e) => {
                return Err(e);
            },
        };
        let ghost saved = configuration@;
        assert(parsed_text(tv) == Ok::<ConfModel, Seq<char>>(saved));
        let configuration = with_kept_extras(configuration, peers);
        let written = self.write_config_parsed(configuration_name.as_str(), &configuration);
        let ghost wv = unit_result(written);
        assert(self.host().wrote(cn, serialize_conf_spec(with_peers(saved, pv)), wv));
        match written {
            Ok(()) => {},
            Err(e) => {
                return Err(e);
            },
        }
        let running = self.host.interface_exists(name);
        let sync = if running {
            self.host.apply_interface(name, InterfaceAction::Sync)
        } else {
            Ok(())
        };
        let ghost sv = unit_result(sync);
        let o = peers_outcome(name, running, sync);
        assert(self.host().present(name@, running));
        if running {
            assert(self.host().applied(name@, InterfaceAction::Sync, sv));
            assert(o@ == save_outcome(true, name@, true, sv));
        } else {
            assert(o@ == save_outcome(true, name@, false, Ok(())));
        }
        assert(after_save(self.host(), name@, true, o@));
        Ok(o)
    }

    fn set_peers(&self, name: &str, peers: &[PeerConf]) -> (r: Result<(), String>)
        ensures
            !valid_iface_name(name@) ==> (r matches Err(m) && m@ == invalid_iface_name_message(
                name@,
            )),
            valid_iface_name(name@) ==> self.host().peers_set(
                name@,
                peers_text(peers_view(peers@)),
                unit_result(r),
            ),
    {
        match validate_iface_name(name) {
            Ok(()) => {},
            Err(e) => {
                return Err(e);
            },
        }
        let text = serialize_peers_for_setconf(peers);
        self.host.set_peers(name, text.as_str())
    }

    /// A new private key and the public key derived from it.
    pub fn generate_keypair(&self) -> (r: Result<KeyPair, String>)
        ensures
            keypair_made(self.host(), keypair_result(r)),
    {
        let made = self.host.generate_private_key();
        let ghost pv = text_result(made);
        let private_key = match made {
            Ok(k) => k,
            Err(e) => {
                assert(self.host().private_key_made(pv));
                return Err(e);
            },
        };
        let derived = self.host.derive_public_key(private_key.as_str());
        let ghost dv = text_result(derived);
        let ghost k = private_key@;
        let r = key_pair(private_key, derived);
        assert(self.host().public_key_made(k, dv));
        assert(key_derived(self.host(), k, keypair_result(r)));
        assert(self.host().private_key_made(pv) && pv == Ok::<Seq<char>, Seq<char>>(k));
        r
    }

    /// A new preshared key.
    pub fn generate_preshared_key(&self) -> (r: Result<String, String>)
        ensures
            self.host().preshared_key_made(text_result(r)),
    {
        self.host.generate_preshared_key()
    }
}

} // verus!
