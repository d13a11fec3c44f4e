//! wg-quick configuration files (`/etc/wireguard/*.conf`): parsing and writing.
//!
//! Comments (`#` and `;`) are dropped, multi-valued keys (Address, DNS,
//! AllowedIPs, PostUp, ...) accumulate, and unknown keys are kept in order in
//! `extras`, so that a configuration read and written again loses no setting.

use vstd::prelude::*;
use crate::text::{
    chars_eq_str, comma_values, decimal, find_char, first_where, is_comment_char, is_comment_char_exec, lemma_first_where,
    lemma_first_where_bounds, lemma_split_char_nonempty, lines, parse_u16_chars, parse_unsigned,
    push_chars, push_str, split_char, split_chars, string_from_chars, strip_cr, to_chars, trim,
    trim_slice, u64_to_string,
};

verus! {

broadcast use vstd::string::group_string_axioms;

#[derive(Clone, Debug)]
pub struct InterfaceConf {
    pub address: Vec<String>,
    pub listen_port: Option<u16>,
    pub private_key: Option<String>,
    pub dns: Vec<String>,
    pub mtu: Option<u16>,
    pub table: Option<String>,
    pub pre_up: Vec<String>,
    pub post_up: Vec<String>,
    pub pre_down: Vec<String>,
    pub post_down: Vec<String>,
    /// Keys that have no field of their own (FwMark, SaveConfig, ...), in order.
    pub extras: Vec<(String, String)>,
}

#[derive(Clone, Debug)]
pub struct PeerConf {
    pub public_key: String,
    pub preshared_key: Option<String>,
    pub allowed_ips: Vec<String>,
    pub endpoint: Option<String>,
    pub persistent_keepalive: Option<u16>,
    pub extras: Vec<(String, String)>,
}

#[derive(Clone, Debug)]
pub struct WgConf {
    pub interface: InterfaceConf,
    pub peers: Vec<PeerConf>,
}

#[verifier::ext_equal]
pub struct InterfaceModel {
    pub address: Seq<Seq<char>>,
    pub listen_port: Option<u16>,
    pub private_key: Option<Seq<char>>,
    pub dns: Seq<Seq<char>>,
    pub mtu: Option<u16>,
    pub table: Option<Seq<char>>,
    pub pre_up: Seq<Seq<char>>,
    pub post_up: Seq<Seq<char>>,
    pub pre_down: Seq<Seq<char>>,
    pub post_down: Seq<Seq<char>>,
    pub extras: Seq<(Seq<char>, Seq<char>)>,
}

#[verifier::ext_equal]
pub struct PeerModel {
    pub public_key: Seq<char>,
    pub preshared_key: Option<Seq<char>>,
    pub allowed_ips: Seq<Seq<char>>,
    pub endpoint: Option<Seq<char>>,
    pub persistent_keepalive: Option<u16>,
    pub extras: Seq<(Seq<char>, Seq<char>)>,
}

#[verifier::ext_equal]
pub struct ConfModel {
    pub interface: InterfaceModel,
    pub peers: Seq<PeerModel>,
}

impl View for InterfaceConf {
    type V = InterfaceModel;

    open spec fn view(&self) -> InterfaceModel {
        InterfaceModel {
            address: self.address.deep_view(),
            listen_port: self.listen_port,
            private_key: self.private_key.deep_view(),
            dns: self.dns.deep_view(),
            mtu: self.mtu,
            table: self.table.deep_view(),
            pre_up: self.pre_up.deep_view(),
            post_up: self.post_up.deep_view(),
            pre_down: self.pre_down.deep_view(),
            post_down: self.post_down.deep_view(),
            extras: self.extras.deep_view(),
        }
    }
}

impl View for PeerConf {
    type V = PeerModel;

    open spec fn view(&self) -> PeerModel {
        PeerModel {
            public_key: self.public_key@,
            preshared_key: self.preshared_key.deep_view(),
            allowed_ips: self.allowed_ips.deep_view(),
            endpoint: self.endpoint.deep_view(),
            persistent_keepalive: self.persistent_keepalive,
            extras: self.extras.deep_view(),
        }
    }
}

pub open spec fn peers_view(peers: Seq<PeerConf>) -> Seq<PeerModel> {
    peers.map_values(|p: PeerConf| p@)
}

impl View for WgConf {
    type V = ConfModel;

    open spec fn view(&self) -> ConfModel {
        ConfModel { interface: self.interface@, peers: peers_view(self.peers@) }
    }
}

pub open spec fn empty_interface() -> InterfaceModel {
    InterfaceModel {
        address: Seq::empty(),
        listen_port: None,
        private_key: None,
        dns: Seq::empty(),
        mtu: None,
        table: None,
        pre_up: Seq::empty(),
        post_up: Seq::empty(),
        pre_down: Seq::empty(),
        post_down: Seq::empty(),
        extras: Seq::empty(),
    }
}

pub open spec fn empty_peer() -> PeerModel {
    PeerModel {
        public_key: Seq::empty(),
        preshared_key: None,
        allowed_ips: Seq::empty(),
        endpoint: None,
        persistent_keepalive: None,
        extras: Seq::empty(),
    }
}

pub open spec fn empty_conf() -> ConfModel {
    ConfModel { interface: empty_interface(), peers: Seq::empty() }
}

impl Default for InterfaceConf {
    fn default() -> (r: Self)
        ensures
            r@ == empty_interface(),
    {
        let r = InterfaceConf {
            address: Vec::new(),
            listen_port: None,
            private_key: None,
            dns: Vec::new(),
            mtu: None,
            table: None,
            pre_up: Vec::new(),
            post_up: Vec::new(),
            pre_down: Vec::new(),
            post_down: Vec::new(),
            extras: Vec::new(),
        };
        assert(r@ =~= empty_interface());
        r
    }
}

impl Default for PeerConf {
    fn default() -> (r: Self)
        ensures
            r@ == empty_peer(),
    {
        let r = PeerConf {
            public_key: String::new(),
            preshared_key: None,
            allowed_ips: Vec::new(),
            endpoint: None,
            persistent_keepalive: None,
            extras: Vec::new(),
        };
        assert(r@ =~= empty_peer());
        r
    }
}

impl Default for WgConf {
    fn default() -> (r: Self)
        ensures
            r@ == empty_conf(),
    {
        let r = WgConf { interface: InterfaceConf::default(), peers: Vec::new() };
        assert(r@ =~= empty_conf());
        r
    }
}

// ---------------------------------------------------------------------------
// What parsing means
// ---------------------------------------------------------------------------

/// A line without its comment: everything before the first `#` or `;`.
pub open spec fn without_comment(line: Seq<char>) -> Seq<char> {
    line.take(first_where(line, |c: char| is_comment_char(c)) as int)
}

/// `key = value`, split at the first `=`, both sides trimmed; the key must not be empty.
pub open spec fn kv_split(line: Seq<char>) -> Option<(Seq<char>, Seq<char>)> {
    let eq = first_where(line, |c: char| c == '=');
    if eq >= line.len() {
        None
    } else {
        let key = trim(line.take(eq as int));
        let value = trim(line.skip(eq + 1int));
        if key.len() == 0 {
            None
        } else {
            Some((key, value))
        }
    }
}

pub open spec fn u16_value(s: Seq<char>) -> Option<u16> {
    match parse_unsigned(s, u16::MAX as nat) {
        Some(n) => Some(n as u16),
        None => None,
    }
}

/// What one `key = value` line in the `[Interface]` section does. A ListenPort or MTU
/// whose value is not a 16-bit number is kept, as it is, among the extras, so that
/// writing the section back loses nothing.
pub open spec fn apply_interface_key_spec(
    i: InterfaceModel,
    key: Seq<char>,
    value: Seq<char>,
) -> InterfaceModel {
    if key == "Address"@ {
        InterfaceModel { address: i.address + comma_values(value), ..i }
    } else if key == "ListenPort"@ && u16_value(value) is Some {
        InterfaceModel { listen_port: u16_value(value), ..i }
    } else if key == "PrivateKey"@ {
        InterfaceModel { private_key: Some(value), ..i }
    } else if key == "DNS"@ {
        InterfaceModel { dns: i.dns + comma_values(value), ..i }
    } else if key == "MTU"@ && u16_value(value) is Some {
        InterfaceModel { mtu: u16_value(value), ..i }
    } else if key == "Table"@ {
        InterfaceModel { table: Some(value), ..i }
    } else if key == "PreUp"@ {
        InterfaceModel { pre_up: i.pre_up.push(value), ..i }
    } else if key == "PostUp"@ {
        InterfaceModel { post_up: i.post_up.push(value), ..i }
    } else if key == "PreDown"@ {
        InterfaceModel { pre_down: i.pre_down.push(value), ..i }
    } else if key == "PostDown"@ {
        InterfaceModel { post_down: i.post_down.push(value), ..i }
    } else {
        InterfaceModel { extras: i.extras.push((key, value)), ..i }
    }
}

/// What one `key = value` line in a `[Peer]` section does. A PersistentKeepalive whose
/// value is not a 16-bit number is kept, as it is, among the extras.
pub open spec fn apply_peer_key_spec(p: PeerModel, key: Seq<char>, value: Seq<char>) -> PeerModel {
    if key == "PublicKey"@ {
        PeerModel { public_key: value, ..p }
    } else if key == "PresharedKey"@ {
        PeerModel { preshared_key: Some(value), ..p }
    } else if key == "AllowedIPs"@ {
        PeerModel { allowed_ips: p.allowed_ips + comma_values(value), ..p }
    } else if key == "Endpoint"@ {
        PeerModel { endpoint: Some(value), ..p }
    } else if key == "PersistentKeepalive"@ && u16_value(value) is Some {
        PeerModel { persistent_keepalive: u16_value(value), ..p }
    } else {
        PeerModel { extras: p.extras.push((key, value)), ..p }
    }
}

/// The message of an error on line `lnum`.
pub open spec fn line_message(lnum: nat, what: Seq<char>) -> Seq<char> {
    "第 "@ + decimal(lnum) + what
}

/// Section 0 is before any section, 1 is `[Interface]`, 2 is a `[Peer]`.
pub struct ParseState {
    pub conf: ConfModel,
    pub section: u8,
}

/// What line number `lnum` (counted from 1) does to the parse state.
pub open spec fn parse_line_spec(st: ParseState, raw: Seq<char>, lnum: nat) -> Result<
    ParseState,
    Seq<char>,
> {
    let line = trim(without_comment(raw));
    if line.len() == 0 {
        Ok(st)
    } else if line[0] == '[' {
        if line.last() != ']' {
            Err(line_message(lnum, " 行段头格式错误: "@ + line))
        } else {
            let name = trim(line.subrange(1, line.len() - 1));
            if name == "Interface"@ {
                Ok(ParseState { conf: st.conf, section: 1 })
            } else if name == "Peer"@ {
                Ok(
                    ParseState {
                        conf: ConfModel { peers: st.conf.peers.push(empty_peer()), ..st.conf },
                        section: 2,
                    },
                )
            } else {
                Err(line_message(lnum, " 行未知段 ["@ + name + "]"@))
            }
        }
    } else {
        match kv_split(line) {
            None => Err(line_message(lnum, " 行不是 key = value 格式: "@ + line)),
            Some((key, value)) => {
                if value.len() == 0 {
                    Ok(st)
                } else if st.section == 1 {
                    Ok(
                        ParseState {
                            conf: ConfModel {
                                interface: apply_interface_key_spec(st.conf.interface, key, value),
                                ..st.conf
                            },
                            section: 1,
                        },
                    )
                } else if st.section == 2 {
                    if st.conf.peers.len() == 0 {
                        Err(line_message(lnum, " 行 Peer 键出现在 Peer 段之外"@))
                    } else {
                        let last = st.conf.peers.len() - 1;
                        Ok(
                            ParseState {
                                conf: ConfModel {
                                    peers: st.conf.peers.update(
                                        last,
                                        apply_peer_key_spec(st.conf.peers[last], key, value),
                                    ),
                                    ..st.conf
                                },
                                section: 2,
                            },
                        )
                    }
                } else {
                    Err(line_message(lnum, " 行键出现在任何段之外: "@ + line))
                }
            },
        }
    }
}

/// The lines `ls`, numbered from `first + 1`, applied in order from `st`.
pub open spec fn parse_lines_from(st: ParseState, ls: Seq<Seq<char>>, first: nat) -> Result<
    ParseState,
    Seq<char>,
>
    decreases ls.len(),
{
    if ls.len() == 0 {
        Ok(st)
    } else {
        match parse_lines_from(st, ls.drop_last(), first) {
            Err(e) => Err(e),
            Ok(s) => parse_line_spec(s, ls.last(), first + ls.len()),
        }
    }
}

pub open spec fn initial_state() -> ParseState {
    ParseState { conf: empty_conf(), section: 0 }
}

/// What `parse_conf` returns for the text `t`.
pub open spec fn parse_conf_spec(t: Seq<char>) -> Result<ConfModel, Seq<char>> {
    match parse_lines_from(initial_state(), lines(t), 0) {
        Ok(st) => Ok(st.conf),
        Err(e) => Err(e),
    }
}

// ---------------------------------------------------------------------------
// Parsing
// ---------------------------------------------------------------------------

/// The line without its inline comment (everything from the first `#` or `;` on).
fn strip_comment(line: &[char]) -> (r: &[char])
    ensures
        r@ == without_comment(line@),
{
    let n = line.len();
    let mut i: usize = 0;
    while i < n && !is_comment_char_exec(line[i])
        invariant
            i <= n,
            n == line@.len(),
            forall|j: int| 0 <= j < i ==> !is_comment_char(#[trigger] line@[j]),
        decreases n - i,
    {
        i = i + 1;
    }
    proof {
        lemma_first_where(line@, |c: char| is_comment_char(c), i as int);
    }
    &line[0..i]
}

/// Splits `key = value` at the first `=`; `None` without `=` or with an empty key.
fn parse_kv(line: &[char]) -> (r: Option<(String, String)>)
    ensures
        r matches Some((k, v)) ==> kv_split(line@) == Some((k@, v@)),
        r is None ==> kv_split(line@) is None,
{
    let eq = find_char(line, '=');
    if eq >= line.len() {
        return None;
    }
    let key = trim_slice(&line[0..eq]);
    let value = trim_slice(&line[eq + 1..line.len()]);
    assert(line@.subrange(0, eq as int) =~= line@.take(eq as int));
    assert(line@.subrange(eq + 1, line@.len() as int) =~= line@.skip(eq + 1));
    if key.len() == 0 {
        return None;
    }
    Some((string_from_chars(key), string_from_chars(value)))
}

/// Comma-separated values, trimmed, without the empty ones.
fn split_multi(value: &str) -> (r: Vec<String>)
    ensures
        r.deep_view() == comma_values(value@),
{
    let chars = to_chars(value);
    let parts = split_chars(chars.as_slice(), ',');
    let mut out: Vec<String> = Vec::new();
    let n = parts.len();
    let mut i: usize = 0;
    while i < n
        invariant
            i <= n,
            n == parts.deep_view().len(),
            parts.deep_view() == split_char(value@, ','),
            out.deep_view() == crate::text::keep_trimmed(parts.deep_view().take(i as int)),
        decreases n - i,
    {
        let t = trim_slice(parts[i].as_slice());
        proof {
            assert(parts.deep_view().take(i + 1).drop_last() =~= parts.deep_view().take(i as int));
            assert(parts.deep_view().take(i + 1).last() == parts@[i as int]@);
            assert(parts@[i as int].deep_view() =~= parts@[i as int]@);
        }
        if t.len() > 0 {
            let ghost before = out.deep_view();
            out.push(string_from_chars(t));
            assert(out.deep_view() =~= before.push(t@));
        }
        i = i + 1;
    }
    assert(parts.deep_view().take(n as int) =~= parts.deep_view());
    out
}

fn append_strings(dst: &mut Vec<String>, src: Vec<String>)
    ensures
        final(dst).deep_view() == old(dst).deep_view() + src.deep_view(),
{
    let mut src = src;
    let ghost d0 = dst.deep_view();
    let ghost s0 = src.deep_view();
    dst.append(&mut src);
    assert(dst.deep_view() =~= d0 + s0);
}

fn push_pair(dst: &mut Vec<(String, String)>, key: &str, value: &str)
    ensures
        final(dst).deep_view() == old(dst).deep_view().push((key@, value@)),
{
    let ghost d0 = dst.deep_view();
    dst.push((key.to_owned(), value.to_owned()));
    assert(dst.deep_view() =~= d0.push((key@, value@)));
}

fn push_string(dst: &mut Vec<String>, value: &str)
    ensures
        final(dst).deep_view() == old(dst).deep_view().push(value@),
{
    let ghost d0 = dst.deep_view();
    dst.push(value.to_owned());
    assert(dst.deep_view() =~= d0.push(value@));
}

fn parse_u16_str(value: &str) -> (r: Option<u16>)
    ensures
        r == u16_value(value@),
{
    let chars = to_chars(value);
    parse_u16_chars(chars.as_slice())
}

fn apply_interface_key(iface: &mut InterfaceConf, key: &str, value: &str)
    ensures
        final(iface)@ == apply_interface_key_spec(old(iface)@, key@, value@),
{
    let k = to_chars(key);
    let ks = k.as_slice();
    if chars_eq_str(ks, "Address") {
        append_strings(&mut iface.address, split_multi(value));
    } else if chars_eq_str(ks, "ListenPort") && parse_u16_str(value).is_some() {
        iface.listen_port = parse_u16_str(value);
    } else if chars_eq_str(ks, "PrivateKey") {
        iface.private_key = Some(value.to_owned());
    } else if chars_eq_str(ks, "DNS") {
        append_strings(&mut iface.dns, split_multi(value));
    } else if chars_eq_str(ks, "MTU") && parse_u16_str(value).is_some() {
        iface.mtu = parse_u16_str(value);
    } else if chars_eq_str(ks, "Table") {
        iface.table = Some(value.to_owned());
    } else if chars_eq_str(ks, "PreUp") {
        push_string(&mut iface.pre_up, value);
    } else if chars_eq_str(ks, "PostUp") {
        push_string(&mut iface.post_up, value);
    } else if chars_eq_str(ks, "PreDown") {
        push_string(&mut iface.pre_down, value);
    } else if chars_eq_str(ks, "PostDown") {
        push_string(&mut iface.post_down, value);
    } else {
        push_pair(&mut iface.extras, key, value);
    }
    assert(iface@ =~= apply_interface_key_spec(old(iface)@, key@, value@));
}

fn apply_peer_key(peer: &mut PeerConf, key: &str, value: &str)
    ensures
        final(peer)@ == apply_peer_key_spec(old(peer)@, key@, value@),
{
    let k = to_chars(key);
    let ks = k.as_slice();
    if chars_eq_str(ks, "PublicKey") {
        peer.public_key = value.to_owned();
    } else if chars_eq_str(ks, "PresharedKey") {
        peer.preshared_key = Some(value.to_owned());
    } else if chars_eq_str(ks, "AllowedIPs") {
        append_strings(&mut peer.allowed_ips, split_multi(value));
    } else if chars_eq_str(ks, "Endpoint") {
        peer.endpoint = Some(value.to_owned());
    } else if chars_eq_str(ks, "PersistentKeepalive") && parse_u16_str(value).is_some() {
        peer.persistent_keepalive = parse_u16_str(value);
    } else {
        push_pair(&mut peer.extras, key, value);
    }
    assert(peer@ =~= apply_peer_key_spec(old(peer)@, key@, value@));
}

/// `"第 " + lnum`, the start of every message about a line.
fn message_start(lnum: usize) -> (m: String)
    ensures
        m@ == "第 "@ + decimal(lnum as nat),
{
    let mut m = String::new();
    push_str(&mut m, "第 ");
    let d = u64_to_string(lnum as u64);
    push_str(&mut m, d.as_str());
    m
}

pub open spec fn cursor_ok(peers_len: nat, cur_peer: Option<usize>) -> bool {
    if peers_len > 0 {
        cur_peer matches Some(i) && i as int == peers_len - 1
    } else {
        cur_peer is None
    }
}

/// One line of the file: what the loop of `parse_conf` does with it.
fn parse_line(
    conf: &mut WgConf,
    section: &mut u8,
    cur_peer: &mut Option<usize>,
    raw: &[char],
    lnum: usize,
) -> (r: Result<(), String>)
    requires
        cursor_ok(old(conf).peers@.len(), *old(cur_peer)),
    ensures
        match parse_line_spec(
            ParseState { conf: old(conf)@, section: *old(section) },
            raw@,
            lnum as nat,
        ) {
            Ok(st) => r is Ok && final(conf)@ == st.conf && *final(section) == st.section,
            Err(e) => r matches Err(m) && m@ == e,
        },
        cursor_ok(final(conf).peers@.len(), *final(cur_peer)),
{
    let line = trim_slice(strip_comment(raw));
    if line.len() == 0 {
        return Ok(());
    }
    if line[0] == '[' {
        if line[line.len() - 1] != ']' {
            let mut m = message_start(lnum);
            push_str(&mut m, " 行段头格式错误: ");
            push_chars(&mut m, line);
            return Err(m);
        }
        let name = trim_slice(&line[1..line.len() - 1]);
        if chars_eq_str(name, "Interface") {
            *section = 1;
        } else if chars_eq_str(name, "Peer") {
            *section = 2;
            let ghost before = conf.peers@;
            conf.peers.push(PeerConf::default());
            *cur_peer = Some(conf.peers.len() - 1);
            assert(peers_view(conf.peers@) =~= peers_view(before).push(empty_peer()));
        } else {
            let mut m = message_start(lnum);
            push_str(&mut m, " 行未知段 [");
            push_chars(&mut m, name);
            push_str(&mut m, "]");
            return Err(m);
        }
        return Ok(());
    }
    let (key, value) = match parse_kv(line) {
        Some(kv) => kv,
        None => {
            let mut m = message_start(lnum);
            push_str(&mut m, " 行不是 key = value 格式: ");
            push_chars(&mut m, line);
            return Err(m);
        },
    };
    if value.as_str().is_empty() {
        return Ok(());
    }
    if *section == 1 {
        apply_interface_key(&mut conf.interface, key.as_str(), value.as_str());
        Ok(())
    } else if *section == 2 {
        match *cur_peer {
            Some(idx) => {
                let ghost before = conf.peers@;
                assert(cursor_ok(before.len(), Some(idx)));
                assert(before.len() > 0);
                assert(idx == before.len() - 1);
                let mut peer = conf.peers.pop().unwrap();
                apply_peer_key(&mut peer, key.as_str(), value.as_str());
                conf.peers.push(peer);
                assert(conf.peers@ =~= before.drop_last().push(peer));
                assert(before.drop_last().push(peer) =~= before.update(idx as int, peer));
                assert(peers_view(conf.peers@) =~= peers_view(before).update(
                    idx as int,
                    apply_peer_key_spec(before[idx as int]@, key@, value@),
                ));
                Ok(())
            },
            None => {
                let mut m = message_start(lnum);
                push_str(&mut m, " 行 Peer 键出现在 Peer 段之外");
                Err(m)
            },
        }
    } else {
        let mut m = message_start(lnum);
        push_str(&mut m, " 行键出现在任何段之外: ");
        push_chars(&mut m, line);
        Err(m)
    }
}

proof fn lemma_split_prefix(t: Seq<char>, sep: char, i: int)
    requires
        0 <= i <= t.len(),
    ensures
        split_char(t.take(i), sep).len() <= split_char(t, sep).len(),
        forall|j: int|
            0 <= j < split_char(t.take(i), sep).len() - 1 ==> #[trigger] split_char(t, sep)[j]
                == split_char(t.take(i), sep)[j],
    decreases t.len() - i,
{
    if i == t.len() {
        assert(t.take(i) =~= t);
    } else {
        assert(t.drop_last().take(i) =~= t.take(i));
        lemma_split_prefix(t.drop_last(), sep, i);
        lemma_split_char_nonempty(t.drop_last(), sep);
        lemma_split_char_nonempty(t.take(i), sep);
    }
}

proof fn lemma_parse_prefix_err(st: ParseState, ls: Seq<Seq<char>>, k: int, first: nat)
    requires
        0 <= k <= ls.len(),
        parse_lines_from(st, ls.take(k), first) is Err,
    ensures
        parse_lines_from(st, ls, first) == parse_lines_from(st, ls.take(k), first),
    decreases ls.len() - k,
{
    if k == ls.len() {
        assert(ls.take(k) =~= ls);
    } else {
        assert(ls.drop_last().take(k) =~= ls.take(k));
        lemma_parse_prefix_err(st, ls.drop_last(), k, first);
    }
}

/// A prefix of complete lines of `t`: the lines before the `done.len()`-th newline.
proof fn lemma_lines_prefix(t: Seq<char>, i: int, done: Seq<Seq<char>>)
    requires
        0 <= i < t.len(),
        t[i] == '\n',
        split_char(t.take(i + 1), '\n') == done.push(Seq::<char>::empty()),
    ensures
        lines(t).len() >= done.len(),
        lines(t).take(done.len() as int) == done.map_values(|p: Seq<char>| strip_cr(p)),
{
    lemma_split_prefix(t, '\n', i + 1);
    lemma_split_char_nonempty(t, '\n');
    let ps = split_char(t, '\n');
    assert(lines(t).take(done.len() as int) =~= done.map_values(|p: Seq<char>| strip_cr(p)));
}

/// Parses wg-quick configuration text.
pub fn parse_conf(text: &str) -> (r: Result<WgConf, String>)
    ensures
        match parse_conf_spec(text@) {
            Ok(c) => r matches Ok(w) && w@ == c,
            Err(e) => r matches Err(m) && m@ == e,
        },
{
    let chars = to_chars(text);
    let n = chars.len();
    let mut conf = WgConf::default();
    let mut section: u8 = 0;
    let mut cur_peer: Option<usize> = None;
    assert(conf.peers@.len() == peers_view(conf.peers@).len());
    let mut start: usize = 0;
    let mut lineno: usize = 0;
    let mut i: usize = 0;
    let ghost mut done: Seq<Seq<char>> = Seq::empty();
    assert(chars@.take(0) =~= Seq::<char>::empty());
    assert(chars@.subrange(0, 0) =~= Seq::<char>::empty());
    assert(done.push(Seq::<char>::empty()) =~= seq![Seq::<char>::empty()]);
    assert(done.map_values(|p: Seq<char>| strip_cr(p)) =~= Seq::<Seq<char>>::empty());
    while i < n
        invariant
            n == chars@.len(),
            chars@ == text@,
            lineno <= start <= i <= n,
            lineno == done.len(),
            split_char(chars@.take(i as int), '\n') == done.push(
                chars@.subrange(start as int, i as int),
            ),
            parse_lines_from(initial_state(), done.map_values(|p: Seq<char>| strip_cr(p)), 0)
                == Ok::<ParseState, Seq<char>>(ParseState { conf: conf@, section }),
            cursor_ok(conf.peers@.len(), cur_peer),
        decreases n - i,
    {
        proof {
            assert(chars@.take(i + 1).drop_last() =~= chars@.take(i as int));
            assert(chars@.take(i + 1).last() == chars@[i as int]);
        }
        if chars[i] == '\n' {
            let ghost piece = chars@.subrange(start as int, i as int);
            let mut end = i;
            if end > start && chars[end - 1] == '\r' {
                end = end - 1;
            }
            let raw = &chars[start..end];
            assert(raw@ =~= strip_cr(piece));
            let ghost next = done.push(piece);
            proof {
                assert(split_char(chars@.take(i + 1), '\n') =~= next.push(Seq::<char>::empty()));
                assert(next.map_values(|p: Seq<char>| strip_cr(p)).drop_last() =~= done.map_values(
                    |p: Seq<char>| strip_cr(p),
                ));
            }
            let step = parse_line(&mut conf, &mut section, &mut cur_peer, raw, lineno + 1);
            match step {
                Ok(()) => {},
                Err(m) => {
                    proof {
                        lemma_lines_prefix(chars@, i as int, next);
                        lemma_parse_prefix_err(
                            initial_state(),
                            lines(chars@),
                            next.len() as int,
                            0,
                        );
                    }
                    return Err(m);
                },
            }
            proof {
                done = next;
            }
            lineno = lineno + 1;
            start = i + 1;
            assert(chars@.subrange(start as int, i + 1) =~= Seq::<char>::empty());
        } else {
            assert(chars@.subrange(start as int, i + 1) =~= chars@.subrange(
                start as int,
                i as int,
            ).push(chars@[i as int]));
        }
        i = i + 1;
    }
    assert(chars@.take(n as int) =~= chars@);
    let ghost complete = done.map_values(|p: Seq<char>| strip_cr(p));
    if start < n {
        let raw = &chars[start..n];
        let ghost last = chars@.subrange(start as int, n as int);
        assert(raw@ == last);
        assert(lines(chars@) =~= complete.push(last));
        assert(lines(chars@).drop_last() =~= complete);
        let step = parse_line(&mut conf, &mut section, &mut cur_peer, raw, lineno + 1);
        match step {
            Ok(()) => {},
            Err(m) => {
                return Err(m);
            },
        }
    } else {
        assert(lines(chars@) =~= complete);
    }
    Ok(conf)
}

// ---------------------------------------------------------------------------
// Writing
// ---------------------------------------------------------------------------

pub open spec fn kv_line(key: Seq<char>, value: Seq<char>) -> Seq<char> {
    key + " = "@ + value + "\n"@
}

/// One `key = value` line for each pair, in order.
pub open spec fn kv_text(kvs: Seq<(Seq<char>, Seq<char>)>) -> Seq<char>
    decreases kvs.len(),
{
    if kvs.len() == 0 {
        Seq::empty()
    } else {
        kv_text(kvs.drop_last()) + kv_line(kvs.last().0, kvs.last().1)
    }
}

/// The pairs `(key, v)` for each value `v`.
pub open spec fn pairs(key: Seq<char>, values: Seq<Seq<char>>) -> Seq<(Seq<char>, Seq<char>)> {
    values.map_values(|v: Seq<char>| (key, v))
}

pub open spec fn opt_pair(key: Seq<char>, value: Option<Seq<char>>) -> Seq<(Seq<char>, Seq<char>)> {
    match value {
        Some(v) => seq![(key, v)],
        None => Seq::empty(),
    }
}

pub open spec fn num_pair(key: Seq<char>, value: Option<u16>) -> Seq<(Seq<char>, Seq<char>)> {
    match value {
        Some(n) => seq![(key, decimal(n as nat))],
        None => Seq::empty(),
    }
}

/// The `key = value` pairs of an `[Interface]` section, in the order they are written.
pub open spec fn interface_kvs(i: InterfaceModel) -> Seq<(Seq<char>, Seq<char>)> {
    pairs("Address"@, i.address) + num_pair("ListenPort"@, i.listen_port) + opt_pair(
        "PrivateKey"@,
        i.private_key,
    ) + pairs("DNS"@, i.dns) + num_pair("MTU"@, i.mtu) + opt_pair("Table"@, i.table) + pairs(
        "PreUp"@,
        i.pre_up,
    ) + pairs("PostUp"@, i.post_up) + pairs("PreDown"@, i.pre_down) + pairs(
        "PostDown"@,
        i.post_down,
    ) + i.extras
}

/// The `key = value` pairs of a `[Peer]` section, in the order they are written.
pub open spec fn peer_kvs(p: PeerModel) -> Seq<(Seq<char>, Seq<char>)> {
    seq![("PublicKey"@, p.public_key)] + opt_pair("PresharedKey"@, p.preshared_key) + pairs(
        "AllowedIPs"@,
        p.allowed_ips,
    ) + opt_pair("Endpoint"@, p.endpoint) + num_pair("PersistentKeepalive"@, p.persistent_keepalive)
        + p.extras
}

pub open spec fn interface_text(i: InterfaceModel) -> Seq<char> {
    "[Interface]\n"@ + kv_text(interface_kvs(i))
}

pub open spec fn peer_text(p: PeerModel) -> Seq<char> {
    "[Peer]\n"@ + kv_text(peer_kvs(p))
}

/// The `[Peer]` sections, separated by empty lines.
pub open spec fn peers_text(peers: Seq<PeerModel>) -> Seq<char>
    decreases peers.len(),
{
    if peers.len() == 0 {
        Seq::empty()
    } else if peers.len() == 1 {
        peer_text(peers[0])
    } else {
        peers_text(peers.drop_last()) + "\n"@ + peer_text(peers.last())
    }
}

/// The setconf text of two Peer lists one after the other is the two texts joined by
/// an empty line.
pub proof fn lemma_setconf_text_concatenates(a: Seq<PeerModel>, b: Seq<PeerModel>)
    requires
        a.len() > 0,
        b.len() > 0,
    ensures
        peers_text(a + b) == peers_text(a) + "\n"@ + peers_text(b),
    decreases b.len(),
{
    let ab = a + b;
    assert(ab.last() == b.last());
    if b.len() == 1 {
        assert(ab.drop_last() =~= a);
    } else {
        let d = b.drop_last();
        lemma_setconf_text_concatenates(a, d);
        assert(ab.drop_last() =~= a + d);
        assert(peers_text(ab) =~= peers_text(a) + "\n"@ + peers_text(b));
    }
}

pub proof fn lemma_kv_text_single(k: Seq<char>, v: Seq<char>)
    ensures
        kv_text(seq![(k, v)]) == kv_line(k, v),
{
    let s = seq![(k, v)];
    assert(s.drop_last() =~= Seq::<(Seq<char>, Seq<char>)>::empty());
    assert(kv_text(s.drop_last()) == Seq::<char>::empty());
    assert(s.last() == (k, v));
    assert(kv_text(s) =~= kv_line(k, v));
}

/// Writing `a` then `b` after `h` is writing `a + b` after `h`.
proof fn lemma_kv_text_step(
    h: Seq<char>,
    a: Seq<(Seq<char>, Seq<char>)>,
    b: Seq<(Seq<char>, Seq<char>)>,
)
    ensures
        h + kv_text(a) + kv_text(b) == h + kv_text(a + b),
{
    lemma_kv_text_append(a, b);
    assert(h + kv_text(a) + kv_text(b) =~= h + (kv_text(a) + kv_text(b)));
}

pub proof fn lemma_kv_text_append(a: Seq<(Seq<char>, Seq<char>)>, b: Seq<(Seq<char>, Seq<char>)>)
    ensures
        kv_text(a + b) == kv_text(a) + kv_text(b),
    decreases b.len(),
{
    if b.len() == 0 {
        assert(a + b =~= a);
        assert(kv_text(a) + kv_text(b) =~= kv_text(a));
    } else {
        assert((a + b).drop_last() =~= a + b.drop_last());
        lemma_kv_text_append(a, b.drop_last());
        assert(kv_text(a + b) =~= kv_text(a) + kv_text(b));
    }
}

/// What `serialize_conf` writes for `c`.
pub open spec fn serialize_conf_spec(c: ConfModel) -> Seq<char> {
    if c.peers.len() == 0 {
        interface_text(c.interface)
    } else {
        interface_text(c.interface) + "\n"@ + peers_text(c.peers)
    }
}

fn emit_kv(out: &mut String, key: &str, value: &str)
    ensures
        final(out)@ == old(out)@ + kv_line(key@, value@),
{
    push_str(out, key);
    push_str(out, " = ");
    push_str(out, value);
    push_str(out, "\n");
}

fn emit_multi(out: &mut String, key: &str, values: &[String])
    ensures
        final(out)@ == old(out)@ + kv_text(pairs(key@, values.deep_view())),
{
    let n = values.len();
    let mut i: usize = 0;
    while i < n
        invariant
            i <= n,
            n == values.deep_view().len(),
            out@ == old(out)@ + kv_text(pairs(key@, values.deep_view().take(i as int))),
        decreases n - i,
    {
        emit_kv(out, key, values[i].as_str());
        proof {
            let vs = values.deep_view();
            assert(pairs(key@, vs.take(i + 1)).drop_last() =~= pairs(key@, vs.take(i as int)));
            assert(pairs(key@, vs.take(i + 1)).last() == (key@, values@[i as int]@));
        }
        i = i + 1;
    }
    assert(values.deep_view().take(n as int) =~= values.deep_view());
}

fn emit_opt(out: &mut String, key: &str, value: &Option<String>)
    ensures
        final(out)@ == old(out)@ + kv_text(opt_pair(key@, value.deep_view())),
{
    match value {
        Some(v) => {
            emit_kv(out, key, v.as_str());
            proof {
                lemma_kv_text_single(key@, v@);
            }
        },
        None => {
            assert(old(out)@ + kv_text(opt_pair(key@, value.deep_view())) =~= old(out)@);
        },
    }
}

fn emit_opt_num(out: &mut String, key: &str, value: Option<u16>)
    ensures
        final(out)@ == old(out)@ + kv_text(num_pair(key@, value)),
{
    match value {
        Some(n) => {
            let text = u64_to_string(n as u64);
            emit_kv(out, key, text.as_str());
            proof {
                lemma_kv_text_single(key@, decimal(n as nat));
            }
        },
        None => {
            assert(old(out)@ + kv_text(num_pair(key@, value)) =~= old(out)@);
        },
    }
}

fn emit_extras(out: &mut String, extras: &Vec<(String, String)>)
    ensures
        final(out)@ == old(out)@ + kv_text(extras.deep_view()),
{
    let n = extras.len();
    let mut i: usize = 0;
    while i < n
        invariant
            i <= n,
            n == extras.deep_view().len(),
            out@ == old(out)@ + kv_text(extras.deep_view().take(i as int)),
        decreases n - i,
    {
        let (k, v) = &extras[i];
        emit_kv(out, k.as_str(), v.as_str());
        proof {
            assert(extras.deep_view().take(i + 1).drop_last() =~= extras.deep_view().take(i as int));
            assert(extras.deep_view().take(i + 1).last() == (k@, v@));
        }
        i = i + 1;
    }
    assert(extras.deep_view().take(n as int) =~= extras.deep_view());
}

fn emit_peer(out: &mut String, p: &PeerConf)
    ensures
        final(out)@ == old(out)@ + peer_text(p@),
{
    let ghost o = out@;
    let ghost pm = p@;
    push_str(out, "[Peer]\n");
    let ghost h = out@;
    emit_kv(out, "PublicKey", p.public_key.as_str());
    let ghost mut acc = seq![("PublicKey"@, pm.public_key)];
    proof {
        lemma_kv_text_single("PublicKey"@, pm.public_key);
    }
    emit_opt(out, "PresharedKey", &p.preshared_key);
    proof {
        lemma_kv_text_step(h, acc, opt_pair("PresharedKey"@, pm.preshared_key));
        acc = acc + opt_pair("PresharedKey"@, pm.preshared_key);
    }
    emit_multi(out, "AllowedIPs", p.allowed_ips.as_slice());
    proof {
        lemma_kv_text_step(h, acc, pairs("AllowedIPs"@, pm.allowed_ips));
        acc = acc + pairs("AllowedIPs"@, pm.allowed_ips);
    }
    emit_opt(out, "Endpoint", &p.endpoint);
    proof {
        lemma_kv_text_step(h, acc, opt_pair("Endpoint"@, pm.endpoint));
        acc = acc + opt_pair("Endpoint"@, pm.endpoint);
    }
    emit_opt_num(out, "PersistentKeepalive", p.persistent_keepalive);
    proof {
        lemma_kv_text_step(h, acc, num_pair("PersistentKeepalive"@, pm.persistent_keepalive));
        acc = acc + num_pair("PersistentKeepalive"@, pm.persistent_keepalive);
    }
    emit_extras(out, &p.extras);
    proof {
        lemma_kv_text_step(h, acc, pm.extras);
        acc = acc + pm.extras;
        assert(acc == peer_kvs(pm));
        assert(out@ =~= o + peer_text(pm));
    }
}

/// Writes wg-quick text in canonical key order; comments are not kept.
pub fn serialize_conf(conf: &WgConf) -> (r: String)
    ensures
        r@ == serialize_conf_spec(conf@),
{
    let mut out = String::new();
    let i = &conf.interface;
    let ghost im = i@;
    push_str(&mut out, "[Interface]\n");
    let ghost h = out@;
    emit_multi(&mut out, "Address", i.address.as_slice());
    let ghost mut acc = pairs("Address"@, im.address);
    emit_opt_num(&mut out, "ListenPort", i.listen_port);
    proof {
        lemma_kv_text_step(h, acc, num_pair("ListenPort"@, im.listen_port));
        acc = acc + num_pair("ListenPort"@, im.listen_port);
    }
    emit_opt(&mut out, "PrivateKey", &i.private_key);
    proof {
        lemma_kv_text_step(h, acc, opt_pair("PrivateKey"@, im.private_key));
        acc = acc + opt_pair("PrivateKey"@, im.private_key);
    }
    emit_multi(&mut out, "DNS", i.dns.as_slice());
    proof {
        lemma_kv_text_step(h, acc, pairs("DNS"@, im.dns));
        acc = acc + pairs("DNS"@, im.dns);
    }
    emit_opt_num(&mut out, "MTU", i.mtu);
    proof {
        lemma_kv_text_step(h, acc, num_pair("MTU"@, im.mtu));
        acc = acc + num_pair("MTU"@, im.mtu);
    }
    emit_opt(&mut out, "Table", &i.table);
    proof {
        lemma_kv_text_step(h, acc, opt_pair("Table"@, im.table));
        acc = acc + opt_pair("Table"@, im.table);
    }
    emit_multi(&mut out, "PreUp", i.pre_up.as_slice());
    proof {
        lemma_kv_text_step(h, acc, pairs("PreUp"@, im.pre_up));
        acc = acc + pairs("PreUp"@, im.pre_up);
    }
    emit_multi(&mut out, "PostUp", i.post_up.as_slice());
    proof {
        lemma_kv_text_step(h, acc, pairs("PostUp"@, im.post_up));
        acc = acc + pairs("PostUp"@, im.post_up);
    }
    emit_multi(&mut out, "PreDown", i.pre_down.as_slice());
    proof {
        lemma_kv_text_step(h, acc, pairs("PreDown"@, im.pre_down));
        acc = acc + pairs("PreDown"@, im.pre_down);
    }
    emit_multi(&mut out, "PostDown", i.post_down.as_slice());
    proof {
        lemma_kv_text_step(h, acc, pairs("PostDown"@, im.post_down));
        acc = acc + pairs("PostDown"@, im.post_down);
    }
    emit_extras(&mut out, &i.extras);
    proof {
        lemma_kv_text_step(h, acc, im.extras);
        acc = acc + im.extras;
        assert(acc == interface_kvs(im));
        assert(out@ =~= interface_text(im));
    }
    if conf.peers.len() == 0 {
        return out;
    }
    push_str(&mut out, "\n");
    let ghost head = out@;
    let n = conf.peers.len();
    let mut k: usize = 0;
    while k < n
        invariant
            k <= n,
            n == conf.peers@.len(),
            out@ == head + peers_text(peers_view(conf.peers@).take(k as int)),
        decreases n - k,
    {
        if k > 0 {
            push_str(&mut out, "\n");
        }
        emit_peer(&mut out, &conf.peers[k]);
        proof {
            let ps = peers_view(conf.peers@);
            assert(ps.take(k + 1).drop_last() =~= ps.take(k as int));
            assert(ps.take(k + 1).last() == conf.peers@[k as int]@);
            if k == 0 {
                assert(ps.take(0) =~= Seq::<PeerModel>::empty());
            }
        }
        k = k + 1;
    }
    assert(peers_view(conf.peers@).take(n as int) =~= peers_view(conf.peers@));
    out
}

/// Only `[Peer]` sections, the text that `wg setconf` takes.
pub fn serialize_peers_for_setconf(peers: &[PeerConf]) -> (r: String)
    ensures
        r@ == peers_text(peers_view(peers@)),
{
    let mut out = String::new();
    let n = peers.len();
    let mut k: usize = 0;
    while k < n
        invariant
            k <= n,
            n == peers@.len(),
            out@ == peers_text(peers_view(peers@).take(k as int)),
            k > 0 ==> out@.len() > 0,
            k == 0 ==> out@.len() == 0,
        decreases n - k,
    {
        if !out.as_str().is_empty() {
            push_str(&mut out, "\n");
        }
        emit_peer(&mut out, &peers[k]);
        proof {
            reveal_strlit("[Peer]\n");
            let ps = peers_view(peers@);
            assert(ps.take(k + 1).drop_last() =~= ps.take(k as int));
            assert(ps.take(k + 1).last() == peers@[k as int]@);
            if k == 0 {
                assert(ps.take(0) =~= Seq::<PeerModel>::empty());
                assert(out@ =~= peer_text(peers@[0]@));
            }
        }
        k = k + 1;
    }
    assert(peers_view(peers@).take(n as int) =~= peers_view(peers@));
    out
}

} // verus!
