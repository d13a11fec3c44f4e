//! `wg show all dump` (machine-readable, tab-separated) parsing.
//!
//! Format (man wg):
//!   interface line: iface \t private-key \t public-key \t listen-port \t fwmark
//!   peer line:      iface \t public-key \t preshared \t endpoint \t allowed-ips \t
//!                   latest-handshake \t transfer-rx \t transfer-tx \t persistent-keepalive
//!
//! Run as root, private and preshared keys are shown; otherwise they read `(hidden)`.

use vstd::prelude::*;
use crate::conf::u16_value;
use crate::text::{
    chars_eq_str, comma_values, debug_quoted, debug_str, decimal, lines, lines_of, parse_u16_chars,
    parse_u64_chars, parse_unsigned, push_chars, push_str, split_char, split_chars,
    string_from_chars, to_chars, trim, trim_end, trim_start, trim_slice, u64_to_string, is_whitespace, is_ws,
    lemma_split_append_plain,
};
use crate::roundtrip::{all_plain, join_lines, lemma_lines_join, plain_line};

verus! {

broadcast use vstd::string::group_string_axioms;

#[derive(Clone, Debug)]
pub struct PeerStatus {
    pub public_key: String,
    pub preshared_key: Option<String>,
    pub endpoint: Option<String>,
    pub allowed_ips: Vec<String>,
    /// Last handshake (Unix seconds); 0 means never.
    pub latest_handshake: u64,
    pub transfer_rx: u64,
    pub transfer_tx: u64,
    pub persistent_keepalive: Option<u16>,
}

#[derive(Clone, Debug)]
pub struct InterfaceDump {
    pub name: String,
    pub public_key: String,
    pub private_key: Option<String>,
    pub listen_port: u16,
    pub fwmark: Option<String>,
    pub peers: Vec<PeerStatus>,
}

#[verifier::ext_equal]
pub struct PeerStatusModel {
    pub public_key: Seq<char>,
    pub preshared_key: Option<Seq<char>>,
    pub endpoint: Option<Seq<char>>,
    pub allowed_ips: Seq<Seq<char>>,
    pub latest_handshake: u64,
    pub transfer_rx: u64,
    pub transfer_tx: u64,
    pub persistent_keepalive: Option<u16>,
}

#[verifier::ext_equal]
pub struct InterfaceDumpModel {
    pub name: Seq<char>,
    pub public_key: Seq<char>,
    pub private_key: Option<Seq<char>>,
    pub listen_port: u16,
    pub fwmark: Option<Seq<char>>,
    pub peers: Seq<PeerStatusModel>,
}

impl View for PeerStatus {
    type V = PeerStatusModel;

    open spec fn view(&self) -> PeerStatusModel {
        PeerStatusModel {
            public_key: self.public_key@,
            preshared_key: self.preshared_key.deep_view(),
            endpoint: self.endpoint.deep_view(),
            allowed_ips: self.allowed_ips.deep_view(),
            latest_handshake: self.latest_handshake,
            transfer_rx: self.transfer_rx,
            transfer_tx: self.transfer_tx,
            persistent_keepalive: self.persistent_keepalive,
        }
    }
}

pub open spec fn peer_statuses_view(ps: Seq<PeerStatus>) -> Seq<PeerStatusModel> {
    ps.map_values(|p: PeerStatus| p@)
}

impl View for InterfaceDump {
    type V = InterfaceDumpModel;

    open spec fn view(&self) -> InterfaceDumpModel {
        InterfaceDumpModel {
            name: self.name@,
            public_key: self.public_key@,
            private_key: self.private_key.deep_view(),
            listen_port: self.listen_port,
            fwmark: self.fwmark.deep_view(),
            peers: peer_statuses_view(self.peers@),
        }
    }
}

pub open spec fn dumps_view(ds: Seq<InterfaceDump>) -> Seq<InterfaceDumpModel> {
    ds.map_values(|d: InterfaceDump| d@)
}

// ---------------------------------------------------------------------------
// What parsing means
// ---------------------------------------------------------------------------

/// `str::trim_end_matches('\r')`.
pub open spec fn strip_trailing_cr(s: Seq<char>) -> Seq<char>
    decreases s.len(),
{
    if s.len() > 0 && s.last() == '\r' {
        strip_trailing_cr(s.drop_last())
    } else {
        s
    }
}

/// A counter field: its trimmed decimal value, or 0 when it is not one.
pub open spec fn counter_value(s: Seq<char>) -> u64 {
    match parse_unsigned(trim(s), u64::MAX as nat) {
        Some(n) => n as u64,
        None => 0,
    }
}

pub open spec fn port_value(s: Seq<char>) -> u16 {
    match u16_value(trim(s)) {
        Some(n) => n,
        None => 0,
    }
}

/// The keepalive field: `off`, empty and `(hidden)` mean none.
pub open spec fn keepalive_value(s: Seq<char>) -> Option<u16> {
    let t = trim(s);
    if t == "off"@ || t.len() == 0 || t == "(hidden)"@ {
        None
    } else {
        u16_value(t)
    }
}

/// A key field: `(hidden)` and empty mean no key.
pub open spec fn key_value(s: Seq<char>) -> Option<Seq<char>> {
    if s == "(hidden)"@ || s.len() == 0 {
        None
    } else {
        Some(s)
    }
}

pub open spec fn fwmark_value(s: Seq<char>) -> Option<Seq<char>> {
    if s == "off"@ || s.len() == 0 {
        None
    } else {
        Some(s)
    }
}

pub open spec fn endpoint_value(s: Seq<char>) -> Option<Seq<char>> {
    if s.len() == 0 || s == "(no endpoint)"@ {
        None
    } else {
        Some(s)
    }
}

pub open spec fn interface_record(parts: Seq<Seq<char>>) -> InterfaceDumpModel {
    InterfaceDumpModel {
        name: parts[0],
        private_key: key_value(parts[1]),
        public_key: parts[2],
        listen_port: port_value(parts[3]),
        fwmark: fwmark_value(parts[4]),
        peers: Seq::empty(),
    }
}

pub open spec fn peer_record(parts: Seq<Seq<char>>) -> PeerStatusModel {
    PeerStatusModel {
        public_key: parts[1],
        preshared_key: key_value(parts[2]),
        endpoint: endpoint_value(parts[3]),
        allowed_ips: comma_values(parts[4]),
        latest_handshake: counter_value(parts[5]),
        transfer_rx: counter_value(parts[6]),
        transfer_tx: counter_value(parts[7]),
        persistent_keepalive: keepalive_value(parts[8]),
    }
}

pub open spec fn dump_message(lnum: nat, what: Seq<char>) -> Seq<char> {
    "dump 第 "@ + decimal(lnum) + what
}

/// What line number `lnum` of the dump does to the interfaces read so far.
pub open spec fn dump_line_spec(ifs: Seq<InterfaceDumpModel>, raw: Seq<char>, lnum: nat) -> Result<
    Seq<InterfaceDumpModel>,
    Seq<char>,
> {
    let line = strip_trailing_cr(raw);
    let parts = split_char(line, '\t');
    if trim(line).len() == 0 {
        Ok(ifs)
    } else if parts.len() < 2 {
        Err(dump_message(lnum, " 行字段不足: "@ + debug_quoted(line)))
    } else if parts.len() == 5 {
        Ok(ifs.push(interface_record(parts)))
    } else if parts.len() == 9 {
        if ifs.len() == 0 {
            Err(dump_message(lnum, " 行出现孤立 peer 记录"@))
        } else {
            let last = ifs.len() - 1;
            Ok(
                ifs.update(
                    last,
                    InterfaceDumpModel { peers: ifs[last].peers.push(peer_record(parts)), ..ifs[last] },
                ),
            )
        }
    } else {
        Err(dump_message(lnum, " 行无法识别: "@ + debug_quoted(line)))
    }
}

pub open spec fn dump_lines_spec(ls: Seq<Seq<char>>) -> Result<Seq<InterfaceDumpModel>, Seq<char>>
    decreases ls.len(),
{
    if ls.len() == 0 {
        Ok(Seq::empty())
    } else {
        match dump_lines_spec(ls.drop_last()) {
            Err(e) => Err(e),
            Ok(ifs) => dump_line_spec(ifs, ls.last(), ls.len()),
        }
    }
}

/// What `parse_dump` returns for the text `t`: the interfaces in order of appearance.
pub open spec fn parse_dump_spec(t: Seq<char>) -> Result<Seq<InterfaceDumpModel>, Seq<char>> {
    dump_lines_spec(lines(t))
}

// ---------------------------------------------------------------------------
// Parsing
// ---------------------------------------------------------------------------

fn parse_u64(s: &[char]) -> (r: u64)
    ensures
        r == counter_value(s@),
{
    match parse_u64_chars(trim_slice(s)) {
        Some(v) => v,
        None => 0,
    }
}

fn parse_port(s: &[char]) -> (r: u16)
    ensures
        r == port_value(s@),
{
    match parse_u16_chars(trim_slice(s)) {
        Some(v) => v,
        None => 0,
    }
}

fn parse_opt_u16(s: &[char]) -> (r: Option<u16>)
    ensures
        r == keepalive_value(s@),
{
    let t = trim_slice(s);
    if chars_eq_str(t, "off") || t.len() == 0 || chars_eq_str(t, "(hidden)") {
        None
    } else {
        parse_u16_chars(t)
    }
}

fn key_field(s: &[char]) -> (r: Option<String>)
    ensures
        r.deep_view() == key_value(s@),
{
    if chars_eq_str(s, "(hidden)") || s.len() == 0 {
        None
    } else {
        Some(string_from_chars(s))
    }
}

fn fwmark_field(s: &[char]) -> (r: Option<String>)
    ensures
        r.deep_view() == fwmark_value(s@),
{
    if chars_eq_str(s, "off") || s.len() == 0 {
        None
    } else {
        Some(string_from_chars(s))
    }
}

fn endpoint_field(s: &[char]) -> (r: Option<String>)
    ensures
        r.deep_view() == endpoint_value(s@),
{
    if s.len() == 0 || chars_eq_str(s, "(no endpoint)") {
        None
    } else {
        Some(string_from_chars(s))
    }
}

/// Comma-separated addresses, trimmed, without the empty ones.
fn split_addresses(s: &[char]) -> (r: Vec<String>)
    ensures
        r.deep_view() == comma_values(s@),
{
    let parts = split_chars(s, ',');
    let mut out: Vec<String> = Vec::new();
    let n = parts.len();
    let mut i: usize = 0;
    while i < n
        invariant
            i <= n,
            n == parts.deep_view().len(),
            parts.deep_view() == split_char(s@, ','),
            out.deep_view() == crate::text::keep_trimmed(parts.deep_view().take(i as int)),
        decreases n - i,
    {
        let t = trim_slice(parts[i].as_slice());
        proof {
            assert(parts.deep_view().take(i + 1).drop_last() =~= parts.deep_view().take(i as int));
            assert(parts.deep_view().take(i + 1).last() == parts@[i as int]@);
            assert(parts@[i as int].deep_view() =~= parts@[i as int]@);
        }
        if t.len() > 0 {
            let ghost before = out.deep_view();
            out.push(string_from_chars(t));
            assert(out.deep_view() =~= before.push(t@));
        }
        i = i + 1;
    }
    assert(parts.deep_view().take(n as int) =~= parts.deep_view());
    out
}

fn dump_message_start(lnum: usize) -> (m: String)
    ensures
        m@ == "dump 第 "@ + decimal(lnum as nat),
{
    let mut m = String::new();
    push_str(&mut m, "dump 第 ");
    let d = u64_to_string(lnum as u64);
    push_str(&mut m, d.as_str());
    m
}

fn strip_trailing_cr_exec(s: &[char]) -> (r: &[char])
    ensures
        r@ == strip_trailing_cr(s@),
{
    let mut end = s.len();
    assert(s@.take(end as int) =~= s@);
    while end > 0 && s[end - 1] == '\r'
        invariant
            end <= s@.len(),
            strip_trailing_cr(s@) == strip_trailing_cr(s@.take(end as int)),
        decreases end,
    {
        assert(s@.take(end as int).drop_last() =~= s@.take(end - 1));
        end = end - 1;
    }
    assert(s@.take(end as int) =~= s@.subrange(0, end as int));
    &s[0..end]
}

/// One line of the dump: what the loop of `parse_dump` does with it.
fn parse_dump_line(ifaces: &mut Vec<InterfaceDump>, raw: &[char], lnum: usize) -> (r: Result<
    (),
    String,
>)
    ensures
        match dump_line_spec(dumps_view(old(ifaces)@), raw@, lnum as nat) {
            Ok(ifs) => r is Ok && dumps_view(final(ifaces)@) == ifs,
            Err(e) => r matches Err(m) && m@ == e,
        },
{
    let line = strip_trailing_cr_exec(raw);
    if trim_slice(line).len() == 0 {
        return Ok(());
    }
    let parts = split_chars(line, '\t');
    let ghost pv = parts.deep_view();
    proof {
        assert forall|j: int| 0 <= j < parts@.len() implies #[trigger] parts@[j]@ == pv[j] by {
            assert(parts@[j].deep_view() =~= parts@[j]@);
        }
    }
    if parts.len() < 2 {
        let mut m = dump_message_start(lnum);
        push_str(&mut m, " 行字段不足: ");
        let text = string_from_chars(line);
        let quoted = debug_str(text.as_str());
        push_str(&mut m, quoted.as_str());
        return Err(m);
    }
    if parts.len() == 5 {
        let record = InterfaceDump {
            name: string_from_chars(parts[0].as_slice()),
            private_key: key_field(parts[1].as_slice()),
            public_key: string_from_chars(parts[2].as_slice()),
            listen_port: parse_port(parts[3].as_slice()),
            fwmark: fwmark_field(parts[4].as_slice()),
            peers: Vec::new(),
        };
        assert(record@ =~= interface_record(pv));
        let ghost before = dumps_view(ifaces@);
        ifaces.push(record);
        assert(dumps_view(ifaces@) =~= before.push(interface_record(pv)));
        Ok(())
    } else if parts.len() == 9 {
        if ifaces.len() == 0 {
            let mut m = dump_message_start(lnum);
            push_str(&mut m, " 行出现孤立 peer 记录");
            return Err(m);
        }
        let peer = PeerStatus {
            public_key: string_from_chars(parts[1].as_slice()),
            preshared_key: key_field(parts[2].as_slice()),
            endpoint: endpoint_field(parts[3].as_slice()),
            allowed_ips: split_addresses(parts[4].as_slice()),
            latest_handshake: parse_u64(parts[5].as_slice()),
            transfer_rx: parse_u64(parts[6].as_slice()),
            transfer_tx: parse_u64(parts[7].as_slice()),
            persistent_keepalive: parse_opt_u16(parts[8].as_slice()),
        };
        assert(peer@ =~= peer_record(pv));
        let ghost before = ifaces@;
        let mut iface = ifaces.pop().unwrap();
        let ghost old_iface = iface;
        let ghost old_peers = iface.peers@;
        iface.peers.push(peer);
        assert(peer_statuses_view(iface.peers@) =~= peer_statuses_view(old_peers).push(peer@));
        ifaces.push(iface);
        proof {
            let last = before.len() - 1;
            assert(ifaces@ =~= before.update(last, iface));
            assert(old_iface == before[last]);
            assert(iface@ =~= InterfaceDumpModel {
                peers: before[last]@.peers.push(peer_record(pv)),
                ..before[last]@
            });
            assert(dumps_view(ifaces@) =~= dumps_view(before).update(
                last,
                InterfaceDumpModel {
                    peers: dumps_view(before)[last].peers.push(peer_record(pv)),
                    ..dumps_view(before)[last]
                },
            ));
        }
        Ok(())
    } else {
        let mut m = dump_message_start(lnum);
        push_str(&mut m, " 行无法识别: ");
        let text = string_from_chars(line);
        let quoted = debug_str(text.as_str());
        push_str(&mut m, quoted.as_str());
        Err(m)
    }
}

proof fn lemma_dump_prefix_err(ls: Seq<Seq<char>>, k: int)
    requires
        0 <= k <= ls.len(),
        dump_lines_spec(ls.take(k)) is Err,
    ensures
        dump_lines_spec(ls) == dump_lines_spec(ls.take(k)),
    decreases ls.len() - k,
{
    if k == ls.len() {
        assert(ls.take(k) =~= ls);
    } else {
        assert(ls.drop_last().take(k) =~= ls.take(k));
        lemma_dump_prefix_err(ls.drop_last(), k);
    }
}

/// Parses dump text into its interfaces, in order of appearance.
pub fn parse_dump(text: &str) -> (r: Result<Vec<InterfaceDump>, String>)
    ensures
        match parse_dump_spec(text@) {
            Ok(ifs) => r matches Ok(v) && dumps_view(v@) == ifs,
            Err(e) => r matches Err(m) && m@ == e,
        },
{
    let chars = to_chars(text);
    let ls = lines_of(chars.as_slice());
    let ghost lv = ls.deep_view();
    let mut interfaces: Vec<InterfaceDump> = Vec::new();
    let n = ls.len();
    let mut i: usize = 0;
    assert(lv.take(0) =~= Seq::<Seq<char>>::empty());
    assert(dumps_view(interfaces@) =~= Seq::<InterfaceDumpModel>::empty());
    while i < n
        invariant
            i <= n,
            n == lv.len(),
            lv == ls.deep_view(),
            lv == lines(text@),
            dump_lines_spec(lv.take(i as int)) == Ok::<Seq<InterfaceDumpModel>, Seq<char>>(
                dumps_view(interfaces@),
            ),
        decreases n - i,
    {
        proof {
            assert(lv.take(i + 1).drop_last() =~= lv.take(i as int));
            assert(ls@[i as int].deep_view() =~= ls@[i as int]@);
            assert(lv.take(i + 1).last() == ls@[i as int]@);
        }
        match parse_dump_line(&mut interfaces, ls[i].as_slice(), i + 1) {
            Ok(()) => {},
            Err(m) => {
                proof {
                    lemma_dump_prefix_err(lv, i + 1);
                }
                return Err(m);
            },
        }
        i = i + 1;
    }
    assert(lv.take(n as int) =~= lv);
    Ok(interfaces)
}

// ---------------------------------------------------------------------------
// Which interface a Peer line belongs to
// ---------------------------------------------------------------------------

/// A field of a dump line: no tab, line break or carriage return inside.
pub open spec fn dump_field(f: Seq<char>) -> bool {
    forall|j: int| 0 <= j < f.len() ==> #[trigger] f[j] != '\t' && f[j] != '\n' && f[j] != '\r'
}

/// The `n` fields of one dump line, the first (the interface name) starting with a
/// character that is not whitespace.
pub open spec fn dump_record(parts: Seq<Seq<char>>, n: nat) -> bool {
    &&& parts.len() == n
    &&& parts[0].len() > 0
    &&& !is_ws(parts[0][0])
    &&& forall|j: int| 0 <= j < parts.len() ==> dump_field(#[trigger] parts[j])
}

/// Fields joined by tabs, as `wg show all dump` writes them.
pub open spec fn tab_line(parts: Seq<Seq<char>>) -> Seq<char>
    decreases parts.len(),
{
    if parts.len() == 0 {
        Seq::empty()
    } else if parts.len() == 1 {
        parts[0]
    } else {
        tab_line(parts.drop_last()) + seq!['\t'] + parts.last()
    }
}

/// One interface of a dump: the fields of its interface line, then the fields of each
/// of its Peer lines.
pub open spec fn dump_block_ok(b: (Seq<Seq<char>>, Seq<Seq<Seq<char>>>)) -> bool {
    &&& dump_record(b.0, 5)
    &&& forall|k: int| 0 <= k < b.1.len() ==> dump_record(#[trigger] b.1[k], 9)
}

pub open spec fn block_lines(b: (Seq<Seq<char>>, Seq<Seq<Seq<char>>>)) -> Seq<Seq<char>> {
    seq![tab_line(b.0)] + b.1.map_values(|p: Seq<Seq<char>>| tab_line(p))
}

/// The lines of a dump: each interface line followed by its Peer lines.
pub open spec fn dump_text_lines(bs: Seq<(Seq<Seq<char>>, Seq<Seq<Seq<char>>>)>) -> Seq<
    Seq<char>,
>
    decreases bs.len(),
{
    if bs.len() == 0 {
        Seq::empty()
    } else {
        dump_text_lines(bs.drop_last()) + block_lines(bs.last())
    }
}

/// The interface that one block describes: its interface line with the records of its
/// own Peer lines, in order.
pub open spec fn block_interface(b: (Seq<Seq<char>>, Seq<Seq<Seq<char>>>)) -> InterfaceDumpModel {
    InterfaceDumpModel {
        peers: b.1.map_values(|p: Seq<Seq<char>>| peer_record(p)),
        ..interface_record(b.0)
    }
}

proof fn lemma_tab_line_chars(parts: Seq<Seq<char>>)
    requires
        parts.len() > 0,
        forall|j: int| 0 <= j < parts.len() ==> dump_field(#[trigger] parts[j]),
    ensures
        forall|j: int|
            0 <= j < tab_line(parts).len() ==> #[trigger] tab_line(parts)[j] != '\n'
                && tab_line(parts)[j] != '\r',
        split_char(tab_line(parts), '\t') == parts,
        parts[0].len() > 0 ==> tab_line(parts).len() > 0 && tab_line(parts)[0] == parts[0][0],
    decreases parts.len(),
{
    if parts.len() == 1 {
        let p = parts[0];
        assert(dump_field(parts[0]));
        assert(Seq::<char>::empty() + p =~= p);
        lemma_split_append_plain(Seq::<char>::empty(), p, '\t');
        assert(split_char(Seq::<char>::empty(), '\t') =~= seq![Seq::<char>::empty()]);
        assert(seq![Seq::<char>::empty()].update(0, Seq::<char>::empty() + p) =~= parts);
    } else {
        let d = parts.drop_last();
        assert(forall|j: int| 0 <= j < d.len() ==> d[j] == parts[j]);
        lemma_tab_line_chars(d);
        let a = tab_line(d);
        let l = parts.last();
        assert(dump_field(parts[parts.len() - 1]));
        let b = a + seq!['\t'];
        let r = b + l;
        assert(tab_line(parts) == r);
        assert forall|j: int| 0 <= j < r.len() implies #[trigger] r[j] != '\n' && r[j] != '\r' by {
            if j < a.len() {
                assert(r[j] == a[j]);
            } else if j > a.len() {
                assert(r[j] == l[j - a.len() - 1]);
            }
        }
        assert(b.drop_last() =~= a);
        assert(split_char(b, '\t') == split_char(a, '\t').push(Seq::<char>::empty()));
        lemma_split_append_plain(b, l, '\t');
        assert(Seq::<char>::empty() + l =~= l);
        assert(d.push(Seq::<char>::empty()).update(d.len() as int, l) =~= parts);
        if parts[0].len() > 0 {
            assert(r[0] == a[0]);
        }
    }
}

proof fn lemma_trim_keeps_first(s: Seq<char>)
    requires
        s.len() > 0,
        !is_ws(s[0]),
    ensures
        trim_end(s).len() > 0,
    decreases s.len(),
{
    if is_ws(s.last()) {
        assert(s.len() > 1);
        assert(s.drop_last()[0] == s[0]);
        lemma_trim_keeps_first(s.drop_last());
    }
}

/// What one tab-joined record line is, once read as a line of the dump.
proof fn lemma_record_line(parts: Seq<Seq<char>>, n: nat)
    requires
        n > 0,
        dump_record(parts, n),
    ensures
        plain_line(tab_line(parts)),
        strip_trailing_cr(tab_line(parts)) == tab_line(parts),
        split_char(strip_trailing_cr(tab_line(parts)), '\t') == parts,
        trim(strip_trailing_cr(tab_line(parts))).len() > 0,
{
    lemma_tab_line_chars(parts);
    let t = tab_line(parts);
    assert(t[t.len() - 1] != '\r');
    assert(trim_start(t) == t);
    lemma_trim_keeps_first(t);
}

proof fn lemma_dump_push(ls: Seq<Seq<char>>, l: Seq<char>)
    ensures
        dump_lines_spec(ls.push(l)) == match dump_lines_spec(ls) {
            Err(e) => Err(e),
            Ok(ifs) => dump_line_spec(ifs, l, ls.len() + 1),
        },
{
    assert(ls.push(l).drop_last() =~= ls);
}

proof fn lemma_dump_peer_lines(
    ls: Seq<Seq<char>>,
    ifs: Seq<InterfaceDumpModel>,
    ps: Seq<Seq<Seq<char>>>,
)
    requires
        dump_lines_spec(ls) == Ok::<Seq<InterfaceDumpModel>, Seq<char>>(ifs),
        ifs.len() > 0,
        forall|k: int| 0 <= k < ps.len() ==> dump_record(#[trigger] ps[k], 9),
    ensures
        dump_lines_spec(ls + ps.map_values(|p: Seq<Seq<char>>| tab_line(p))) == Ok::<
            Seq<InterfaceDumpModel>,
            Seq<char>,
        >(
            ifs.update(
                ifs.len() - 1,
                InterfaceDumpModel {
                    peers: ifs.last().peers + ps.map_values(|p: Seq<Seq<char>>| peer_record(p)),
                    ..ifs.last()
                },
            ),
        ),
    decreases ps.len(),
{
    let last = ifs.len() - 1;
    if ps.len() == 0 {
        assert(ls + ps.map_values(|p: Seq<Seq<char>>| tab_line(p)) =~= ls);
        assert(ifs.last().peers + ps.map_values(|p: Seq<Seq<char>>| peer_record(p))
            =~= ifs.last().peers);
        assert(ifs.update(last, InterfaceDumpModel { peers: ifs.last().peers, ..ifs.last() })
            =~= ifs);
    } else {
        let d = ps.drop_last();
        let p = ps.last();
        assert(forall|k: int| 0 <= k < d.len() ==> d[k] == ps[k]);
        lemma_dump_peer_lines(ls, ifs, d);
        let dl = ls + d.map_values(|q: Seq<Seq<char>>| tab_line(q));
        assert(ls + ps.map_values(|q: Seq<Seq<char>>| tab_line(q)) =~= dl.push(tab_line(p)));
        lemma_dump_push(dl, tab_line(p));
        assert(dump_record(ps[ps.len() - 1], 9));
        lemma_record_line(p, 9);
        let mid = ifs.update(
            last,
            InterfaceDumpModel {
                peers: ifs.last().peers + d.map_values(|q: Seq<Seq<char>>| peer_record(q)),
                ..ifs.last()
            },
        );
        assert(mid[last].peers.push(peer_record(p)) =~= ifs.last().peers + ps.map_values(
            |q: Seq<Seq<char>>| peer_record(q),
        ));
        assert(mid.update(
            last,
            InterfaceDumpModel { peers: mid[last].peers.push(peer_record(p)), ..mid[last] },
        ) =~= ifs.update(
            last,
            InterfaceDumpModel {
                peers: ifs.last().peers + ps.map_values(|q: Seq<Seq<char>>| peer_record(q)),
                ..ifs.last()
            },
        ));
    }
}

/// Every Peer line of a dump belongs to the interface line that comes last before it:
/// a dump made of interface lines, each followed by its own Peer lines, is read as
/// those interfaces in order, each with exactly the Peers of its own lines, in order,
/// named, keyed and routed as those lines say.
pub proof fn lemma_peers_belong_to_preceding_interface(
    bs: Seq<(Seq<Seq<char>>, Seq<Seq<Seq<char>>>)>,
)
    requires
        forall|k: int| 0 <= k < bs.len() ==> dump_block_ok(#[trigger] bs[k]),
    ensures
        all_plain(dump_text_lines(bs)),
        parse_dump_spec(join_lines(dump_text_lines(bs))) == Ok::<
            Seq<InterfaceDumpModel>,
            Seq<char>,
        >(bs.map_values(|b: (Seq<Seq<char>>, Seq<Seq<Seq<char>>>)| block_interface(b))),
        forall|k: int|
            0 <= k < bs.len() ==> {
                let x = #[trigger] block_interface(bs[k]);
                &&& x.name == bs[k].0[0]
                &&& x.public_key == bs[k].0[2]
                &&& x.peers.len() == bs[k].1.len()
                &&& forall|m: int|
                    0 <= m < bs[k].1.len() ==> (#[trigger] x.peers[m]).public_key == bs[k].1[m][1]
                        && x.peers[m].allowed_ips == comma_values(bs[k].1[m][4])
            },
    decreases bs.len(),
{
    let ls = dump_text_lines(bs);
    if bs.len() == 0 {
        assert(ls =~= Seq::<Seq<char>>::empty());
        assert(bs.map_values(|b: (Seq<Seq<char>>, Seq<Seq<Seq<char>>>)| block_interface(b))
            =~= Seq::<InterfaceDumpModel>::empty());
        lemma_lines_join(ls);
    } else {
        let d = bs.drop_last();
        let b = bs.last();
        assert(forall|k: int| 0 <= k < d.len() ==> d[k] == bs[k]);
        lemma_peers_belong_to_preceding_interface(d);
        assert(dump_block_ok(bs[bs.len() - 1]));
        let dl = dump_text_lines(d);
        let ifs = d.map_values(|x: (Seq<Seq<char>>, Seq<Seq<Seq<char>>>)| block_interface(x));
        lemma_lines_join(dl);
        assert(dump_lines_spec(dl) == Ok::<Seq<InterfaceDumpModel>, Seq<char>>(ifs));
        let h = tab_line(b.0);
        lemma_record_line(b.0, 5);
        lemma_dump_push(dl, h);
        let ifs1 = ifs.push(interface_record(b.0));
        assert(dump_lines_spec(dl.push(h)) == Ok::<Seq<InterfaceDumpModel>, Seq<char>>(ifs1));
        lemma_dump_peer_lines(dl.push(h), ifs1, b.1);
        let pl = b.1.map_values(|p: Seq<Seq<char>>| tab_line(p));
        assert(ls =~= dl.push(h) + pl);
        assert(ifs1.update(
            ifs1.len() - 1,
            InterfaceDumpModel {
                peers: ifs1.last().peers + b.1.map_values(|p: Seq<Seq<char>>| peer_record(p)),
                ..ifs1.last()
            },
        ) =~= bs.map_values(|x: (Seq<Seq<char>>, Seq<Seq<Seq<char>>>)| block_interface(x)));
        assert forall|j: int| 0 <= j < ls.len() implies plain_line(#[trigger] ls[j]) by {
            if j < dl.len() {
                assert(ls[j] == dl[j]);
            } else if j == dl.len() {
                assert(ls[j] == h);
            } else {
                let k = j - dl.len() - 1;
                assert(ls[j] == pl[k]);
                assert(dump_record(b.1[k], 9));
                lemma_record_line(b.1[k], 9);
            }
        }
        lemma_lines_join(ls);
    }
}

} // verus!
