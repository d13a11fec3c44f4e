//! Reading what was written: `parse_conf` gives back every configuration that
//! `serialize_conf` writes, as long as its values can stand in the format, and
//! every configuration that `parse_conf` returns is such a configuration.

use vstd::prelude::*;
use crate::text::{
    comma_values, decimal, digit_char, digit_value, digits_value, first_where, is_comment_char, is_digit, is_ws,
    keep_trimmed, lemma_first_where, lemma_first_where_bounds, lemma_split_append_plain, lemma_split_char_nonempty, lines, parse_unsigned, split_char,
    strip_cr, trim, trim_end, trim_start,
};
use crate::conf::{
    apply_interface_key_spec, apply_peer_key_spec, empty_conf, empty_interface, empty_peer,
    initial_state, interface_kvs, interface_text, kv_line, kv_split, kv_text, num_pair, opt_pair,
    pairs, parse_conf_spec, parse_line_spec, parse_lines_from, peer_kvs, peer_text, peers_text,
    serialize_conf_spec, u16_value, without_comment, ConfModel, InterfaceModel, ParseState,
    PeerModel,
};

verus! {

// ---------------------------------------------------------------------------
// Which values the format can hold
// ---------------------------------------------------------------------------

/// A value that reads back as itself: not empty, no whitespace at either end,
/// no line break and no comment character.
pub open spec fn clean_value(v: Seq<char>) -> bool {
    &&& v.len() > 0
    &&& !is_ws(v[0])
    &&& !is_ws(v.last())
    &&& forall|j: int| 0 <= j < v.len() ==> #[trigger] v[j] != '\n' && !is_comment_char(v[j])
}

/// One value of a comma-separated key: a clean value without a comma.
pub open spec fn clean_item(v: Seq<char>) -> bool {
    &&& clean_value(v)
    &&& forall|j: int| 0 <= j < v.len() ==> #[trigger] v[j] != ','
}

/// A key that reads back as itself: clean, without `=`, and not starting a section header.
pub open spec fn clean_key(k: Seq<char>) -> bool {
    &&& clean_value(k)
    &&& k[0] != '['
    &&& forall|j: int| 0 <= j < k.len() ==> #[trigger] k[j] != '='
}

pub open spec fn is_interface_key(k: Seq<char>) -> bool {
    ||| k == "Address"@
    ||| k == "ListenPort"@
    ||| k == "PrivateKey"@
    ||| k == "DNS"@
    ||| k == "MTU"@
    ||| k == "Table"@
    ||| k == "PreUp"@
    ||| k == "PostUp"@
    ||| k == "PreDown"@
    ||| k == "PostDown"@
}

pub open spec fn is_peer_key(k: Seq<char>) -> bool {
    ||| k == "PublicKey"@
    ||| k == "PresharedKey"@
    ||| k == "AllowedIPs"@
    ||| k == "Endpoint"@
    ||| k == "PersistentKeepalive"@
}

pub open spec fn opt_clean(v: Option<Seq<char>>) -> bool {
    v matches Some(x) ==> clean_value(x)
}

pub open spec fn all_clean(vs: Seq<Seq<char>>) -> bool {
    forall|j: int| 0 <= j < vs.len() ==> clean_value(#[trigger] vs[j])
}

pub open spec fn all_items(vs: Seq<Seq<char>>) -> bool {
    forall|j: int| 0 <= j < vs.len() ==> clean_item(#[trigger] vs[j])
}

/// A pair that an `[Interface]` keeps among its extras: a key of its own, or a ListenPort
/// or MTU whose value is not a 16-bit number.
pub open spec fn interface_extra(k: Seq<char>, v: Seq<char>) -> bool {
    !is_interface_key(k) || ((k == "ListenPort"@ || k == "MTU"@) && u16_value(v) is None)
}

/// A pair that a `[Peer]` keeps among its extras: a key of its own, or a
/// PersistentKeepalive whose value is not a 16-bit number.
pub open spec fn peer_extra(k: Seq<char>, v: Seq<char>) -> bool {
    !is_peer_key(k) || (k == "PersistentKeepalive"@ && u16_value(v) is None)
}

pub open spec fn interface_extras_ok(es: Seq<(Seq<char>, Seq<char>)>) -> bool {
    forall|j: int|
        #![trigger es[j]]
        0 <= j < es.len() ==> clean_key(es[j].0) && interface_extra(es[j].0, es[j].1)
            && clean_value(es[j].1)
}

pub open spec fn peer_extras_ok(es: Seq<(Seq<char>, Seq<char>)>) -> bool {
    forall|j: int|
        #![trigger es[j]]
        0 <= j < es.len() ==> clean_key(es[j].0) && peer_extra(es[j].0, es[j].1) && clean_value(
            es[j].1,
        )
}

/// An `[Interface]` section whose every value can be written and read back.
pub open spec fn interface_writable(i: InterfaceModel) -> bool {
    &&& all_items(i.address)
    &&& opt_clean(i.private_key)
    &&& all_items(i.dns)
    &&& opt_clean(i.table)
    &&& all_clean(i.pre_up)
    &&& all_clean(i.post_up)
    &&& all_clean(i.pre_down)
    &&& all_clean(i.post_down)
    &&& interface_extras_ok(i.extras)
}

/// A `[Peer]` section whose every value can be written and read back
/// (an empty public key is written as an empty value and stays empty).
pub open spec fn peer_writable(p: PeerModel) -> bool {
    &&& (p.public_key.len() == 0 || clean_value(p.public_key))
    &&& opt_clean(p.preshared_key)
    &&& all_items(p.allowed_ips)
    &&& opt_clean(p.endpoint)
    &&& peer_extras_ok(p.extras)
}

pub open spec fn conf_writable(c: ConfModel) -> bool {
    &&& interface_writable(c.interface)
    &&& forall|j: int| 0 <= j < c.peers.len() ==> peer_writable(#[trigger] c.peers[j])
}

// ---------------------------------------------------------------------------
// Single lines
// ---------------------------------------------------------------------------

proof fn lemma_trim_clean(s: Seq<char>)
    requires
        s.len() > 0,
        !is_ws(s[0]),
        !is_ws(s.last()),
    ensures
        trim(s) == s,
{
}

proof fn lemma_without_comment_clean(s: Seq<char>)
    requires
        forall|j: int| 0 <= j < s.len() ==> !is_comment_char(#[trigger] s[j]),
    ensures
        without_comment(s) == s,
{
    lemma_first_where(s, |c: char| is_comment_char(c), s.len() as int);
    assert(s.take(s.len() as int) =~= s);
}

pub open spec fn key_line(k: Seq<char>, v: Seq<char>) -> Seq<char> {
    k + " = "@ + v
}

/// What the kv branch of a line does once the key and the non-empty value are known.
pub open spec fn apply_in_section(st: ParseState, k: Seq<char>, v: Seq<char>) -> ParseState {
    if st.section == 1 {
        ParseState {
            conf: ConfModel {
                interface: apply_interface_key_spec(st.conf.interface, k, v),
                ..st.conf
            },
            section: 1,
        }
    } else {
        let last = st.conf.peers.len() - 1;
        ParseState {
            conf: ConfModel {
                peers: st.conf.peers.update(
                    last,
                    apply_peer_key_spec(st.conf.peers[last], k, v),
                ),
                ..st.conf
            },
            section: 2,
        }
    }
}

proof fn lemma_kv_line(st: ParseState, k: Seq<char>, v: Seq<char>, n: nat)
    requires
        clean_key(k),
        v.len() == 0 || clean_value(v),
        st.section == 1 || (st.section == 2 && st.conf.peers.len() > 0),
    ensures
        parse_line_spec(st, key_line(k, v), n) == if v.len() == 0 {
            Ok::<ParseState, Seq<char>>(st)
        } else {
            Ok(apply_in_section(st, k, v))
        },
{
    reveal_strlit(" = ");
    let line = key_line(k, v);
    let kl = k.len() as int;
    assert(line.len() == kl + 3 + v.len());
    assert(forall|j: int| 0 <= j < kl ==> line[j] == k[j]);
    assert(forall|j: int| 0 <= j < v.len() ==> line[kl + 3 + j] == v[j]);
    assert(line[kl] == ' ' && line[kl + 1] == '=' && line[kl + 2] == ' ');
    assert forall|j: int| 0 <= j < line.len() implies !is_comment_char(#[trigger] line[j]) by {
        if j < kl {
            assert(line[j] == k[j]);
        } else if j >= kl + 3 {
            assert(line[j] == v[j - kl - 3]);
        }
    }
    lemma_without_comment_clean(line);
    let tl = if v.len() == 0 {
        k + seq![' ', '=']
    } else {
        line
    };
    if v.len() == 0 {
        assert(line.drop_last() =~= tl);
        assert(trim_start(line) == line);
        assert(trim_end(line) == trim_end(tl));
        assert(trim_end(tl) == tl);
    } else {
        lemma_trim_clean(line);
    }
    assert(trim(without_comment(line)) == tl);
    assert(tl[0] == k[0]);
    assert(tl[kl] == ' ' && tl[kl + 1] == '=');
    assert(forall|j: int| 0 <= j < kl ==> tl[j] == k[j]);
    lemma_first_where(tl, |c: char| c == '=', kl + 1);
    assert(tl.take(kl + 1) =~= k.push(' '));
    assert(k.push(' ').drop_last() =~= k);
    assert(trim_end(k.push(' ')) == trim_end(k));
    assert(trim(k.push(' ')) == k);
    if v.len() == 0 {
        assert(tl.skip(kl + 2) =~= Seq::<char>::empty());
    } else {
        assert(tl.skip(kl + 2) =~= seq![' '] + v);
        assert((seq![' '] + v).drop_first() =~= v);
        assert(trim_start(seq![' '] + v) == trim_start(v));
        lemma_trim_clean(v);
    }
    assert(kv_split(tl) == Some((k, v)));
}

proof fn lemma_blank_line(st: ParseState, n: nat)
    ensures
        parse_line_spec(st, Seq::empty(), n) == Ok::<ParseState, Seq<char>>(st),
{
    let e = Seq::<char>::empty();
    lemma_without_comment_clean(e);
}

proof fn lemma_interface_header(st: ParseState, n: nat)
    ensures
        parse_line_spec(st, "[Interface]"@, n) == Ok::<ParseState, Seq<char>>(
            ParseState { conf: st.conf, section: 1 },
        ),
{
    reveal_strlit("[Interface]");
    reveal_strlit("Interface");
    let line = "[Interface]"@;
    lemma_without_comment_clean(line);
    lemma_trim_clean(line);
    let name = line.subrange(1, line.len() - 1);
    assert(name =~= "Interface"@);
    lemma_trim_clean(name);
}

proof fn lemma_peer_header(st: ParseState, n: nat)
    ensures
        parse_line_spec(st, "[Peer]"@, n) == Ok::<ParseState, Seq<char>>(
            ParseState {
                conf: ConfModel { peers: st.conf.peers.push(empty_peer()), ..st.conf },
                section: 2,
            },
        ),
{
    reveal_strlit("[Peer]");
    reveal_strlit("Peer");
    reveal_strlit("Interface");
    let line = "[Peer]"@;
    lemma_without_comment_clean(line);
    lemma_trim_clean(line);
    let name = line.subrange(1, line.len() - 1);
    assert(name =~= "Peer"@);
    lemma_trim_clean(name);
}

// ---------------------------------------------------------------------------
// Runs of lines
// ---------------------------------------------------------------------------

proof fn lemma_parse_concat(st: ParseState, a: Seq<Seq<char>>, b: Seq<Seq<char>>, f: nat)
    ensures
        parse_lines_from(st, a + b, f) == match parse_lines_from(st, a, f) {
            Ok(s2) => parse_lines_from(s2, b, f + a.len()),
            Err(e) => Err(e),
        },
    decreases b.len(),
{
    if b.len() == 0 {
        assert(a + b =~= a);
    } else {
        assert((a + b).drop_last() =~= a + b.drop_last());
        lemma_parse_concat(st, a, b.drop_last(), f);
    }
}

pub open spec fn kv_lines(kvs: Seq<(Seq<char>, Seq<char>)>) -> Seq<Seq<char>> {
    kvs.map_values(|kv: (Seq<char>, Seq<char>)| key_line(kv.0, kv.1))
}

pub open spec fn kvs_clean(kvs: Seq<(Seq<char>, Seq<char>)>) -> bool {
    forall|j: int|
        #![trigger kvs[j]]
        0 <= j < kvs.len() ==> clean_key(kvs[j].0) && (kvs[j].1.len() == 0 || clean_value(
            kvs[j].1,
        ))
}

/// The interface after its `key = value` pairs, empty values skipped.
pub open spec fn fold_interface(i: InterfaceModel, kvs: Seq<(Seq<char>, Seq<char>)>) -> InterfaceModel
    decreases kvs.len(),
{
    if kvs.len() == 0 {
        i
    } else {
        let x = fold_interface(i, kvs.drop_last());
        if kvs.last().1.len() == 0 {
            x
        } else {
            apply_interface_key_spec(x, kvs.last().0, kvs.last().1)
        }
    }
}

/// The peer after its `key = value` pairs, empty values skipped.
pub open spec fn fold_peer(p: PeerModel, kvs: Seq<(Seq<char>, Seq<char>)>) -> PeerModel
    decreases kvs.len(),
{
    if kvs.len() == 0 {
        p
    } else {
        let x = fold_peer(p, kvs.drop_last());
        if kvs.last().1.len() == 0 {
            x
        } else {
            apply_peer_key_spec(x, kvs.last().0, kvs.last().1)
        }
    }
}

proof fn lemma_parse_interface_kvs(st: ParseState, kvs: Seq<(Seq<char>, Seq<char>)>, f: nat)
    requires
        st.section == 1,
        kvs_clean(kvs),
    ensures
        parse_lines_from(st, kv_lines(kvs), f) == Ok::<ParseState, Seq<char>>(
            ParseState {
                conf: ConfModel { interface: fold_interface(st.conf.interface, kvs), ..st.conf },
                section: 1,
            },
        ),
    decreases kvs.len(),
{
    if kvs.len() > 0 {
        let d = kvs.drop_last();
        assert(kv_lines(kvs).drop_last() =~= kv_lines(d));
        assert(kvs_clean(d)) by {
            assert forall|j: int| 0 <= j < d.len() implies clean_key(#[trigger] d[j].0) && (
            d[j].1.len() == 0 || clean_value(d[j].1)) by {
                assert(d[j] == kvs[j]);
            }
        }
        lemma_parse_interface_kvs(st, d, f);
        let s2 = ParseState {
            conf: ConfModel { interface: fold_interface(st.conf.interface, d), ..st.conf },
            section: 1,
        };
        let kv = kvs[kvs.len() - 1];
        assert(kv_lines(kvs).last() == key_line(kv.0, kv.1));
        lemma_kv_line(s2, kv.0, kv.1, f + kvs.len());
    }
}

proof fn lemma_parse_peer_kvs(st: ParseState, kvs: Seq<(Seq<char>, Seq<char>)>, f: nat)
    requires
        st.section == 2,
        st.conf.peers.len() > 0,
        kvs_clean(kvs),
    ensures
        parse_lines_from(st, kv_lines(kvs), f) == Ok::<ParseState, Seq<char>>(
            ParseState {
                conf: ConfModel {
                    peers: st.conf.peers.update(
                        st.conf.peers.len() - 1,
                        fold_peer(st.conf.peers.last(), kvs),
                    ),
                    ..st.conf
                },
                section: 2,
            },
        ),
    decreases kvs.len(),
{
    let last = st.conf.peers.len() - 1;
    if kvs.len() == 0 {
        assert(st.conf.peers.update(last, st.conf.peers.last()) =~= st.conf.peers);
    } else {
        let d = kvs.drop_last();
        assert(kv_lines(kvs).drop_last() =~= kv_lines(d));
        assert(kvs_clean(d)) by {
            assert forall|j: int| 0 <= j < d.len() implies clean_key(#[trigger] d[j].0) && (
            d[j].1.len() == 0 || clean_value(d[j].1)) by {
                assert(d[j] == kvs[j]);
            }
        }
        lemma_parse_peer_kvs(st, d, f);
        let s2 = ParseState {
            conf: ConfModel {
                peers: st.conf.peers.update(last, fold_peer(st.conf.peers.last(), d)),
                ..st.conf
            },
            section: 2,
        };
        let kv = kvs[kvs.len() - 1];
        assert(kv_lines(kvs).last() == key_line(kv.0, kv.1));
        lemma_kv_line(s2, kv.0, kv.1, f + kvs.len());
        assert(s2.conf.peers.update(last, fold_peer(st.conf.peers.last(), kvs)) =~= st.conf.peers.update(
            last,
            fold_peer(st.conf.peers.last(), kvs),
        ));
    }
}

// ---------------------------------------------------------------------------
// Folding the written pairs back into the model
// ---------------------------------------------------------------------------

proof fn lemma_fold_interface_concat(
    i: InterfaceModel,
    a: Seq<(Seq<char>, Seq<char>)>,
    b: Seq<(Seq<char>, Seq<char>)>,
)
    ensures
        fold_interface(i, a + b) == fold_interface(fold_interface(i, a), b),
    decreases b.len(),
{
    if b.len() == 0 {
        assert(a + b =~= a);
    } else {
        assert((a + b).drop_last() =~= a + b.drop_last());
        lemma_fold_interface_concat(i, a, b.drop_last());
    }
}

proof fn lemma_fold_peer_concat(
    p: PeerModel,
    a: Seq<(Seq<char>, Seq<char>)>,
    b: Seq<(Seq<char>, Seq<char>)>,
)
    ensures
        fold_peer(p, a + b) == fold_peer(fold_peer(p, a), b),
    decreases b.len(),
{
    if b.len() == 0 {
        assert(a + b =~= a);
    } else {
        assert((a + b).drop_last() =~= a + b.drop_last());
        lemma_fold_peer_concat(p, a, b.drop_last());
    }
}

/// The keys of the format, told apart by length and first character.
proof fn lemma_keys()
    ensures
        "Address"@.len() == 7 && "Address"@[0] == 'A',
        "ListenPort"@.len() == 10 && "ListenPort"@[0] == 'L',
        "PrivateKey"@.len() == 10 && "PrivateKey"@[0] == 'P',
        "DNS"@.len() == 3 && "DNS"@[0] == 'D',
        "MTU"@.len() == 3 && "MTU"@[0] == 'M',
        "Table"@.len() == 5 && "Table"@[0] == 'T',
        "PreUp"@.len() == 5 && "PreUp"@[0] == 'P',
        "PostUp"@.len() == 6 && "PostUp"@[0] == 'P',
        "PreDown"@.len() == 7 && "PreDown"@[0] == 'P',
        "PostDown"@.len() == 8 && "PostDown"@[0] == 'P',
        "PublicKey"@.len() == 9,
        "PresharedKey"@.len() == 12,
        "AllowedIPs"@.len() == 10,
        "Endpoint"@.len() == 8,
        "PersistentKeepalive"@.len() == 19,
        clean_key("Address"@),
        clean_key("ListenPort"@),
        clean_key("PrivateKey"@),
        clean_key("DNS"@),
        clean_key("MTU"@),
        clean_key("Table"@),
        clean_key("PreUp"@),
        clean_key("PostUp"@),
        clean_key("PreDown"@),
        clean_key("PostDown"@),
        clean_key("PublicKey"@),
        clean_key("PresharedKey"@),
        clean_key("AllowedIPs"@),
        clean_key("Endpoint"@),
        clean_key("PersistentKeepalive"@),
{
    reveal_strlit("Address");
    reveal_strlit("ListenPort");
    reveal_strlit("PrivateKey");
    reveal_strlit("DNS");
    reveal_strlit("MTU");
    reveal_strlit("Table");
    reveal_strlit("PreUp");
    reveal_strlit("PostUp");
    reveal_strlit("PreDown");
    reveal_strlit("PostDown");
    reveal_strlit("PublicKey");
    reveal_strlit("PresharedKey");
    reveal_strlit("AllowedIPs");
    reveal_strlit("Endpoint");
    reveal_strlit("PersistentKeepalive");
}

proof fn lemma_split_no_sep(s: Seq<char>, sep: char)
    requires
        forall|j: int| 0 <= j < s.len() ==> #[trigger] s[j] != sep,
    ensures
        split_char(s, sep) == seq![s],
    decreases s.len(),
{
    if s.len() > 0 {
        lemma_split_no_sep(s.drop_last(), sep);
        assert(s.drop_last().push(s.last()) =~= s);
        assert(split_char(s, sep) =~= seq![s]);
    } else {
        assert(s =~= Seq::<char>::empty());
    }
}

proof fn lemma_comma_item(v: Seq<char>)
    requires
        clean_item(v),
    ensures
        comma_values(v) == seq![v],
{
    lemma_split_no_sep(v, ',');
    let ps = seq![v];
    assert(ps.drop_last() =~= Seq::<Seq<char>>::empty());
    lemma_trim_clean(v);
    assert(keep_trimmed(ps.drop_last()) == Seq::<Seq<char>>::empty());
    assert(ps.last() == v);
    assert(keep_trimmed(ps) =~= seq![v]);
}

proof fn lemma_digit_char(d: nat)
    requires
        d < 10,
    ensures
        is_digit(digit_char(d)),
        digit_value(digit_char(d)) == d,
{
}

proof fn lemma_decimal_digits(n: nat)
    ensures
        decimal(n).len() > 0,
        forall|j: int| 0 <= j < decimal(n).len() ==> is_digit(#[trigger] decimal(n)[j]),
        digits_value(decimal(n)) == n,
    decreases n,
{
    if n >= 10 {
        lemma_decimal_digits(n / 10);
        let d = decimal(n);
        assert(d.drop_last() =~= decimal(n / 10));
        lemma_digit_char(n % 10);
        assert(d.last() == digit_char(n % 10));
        assert(digits_value(d) == (n / 10) * 10 + n % 10);
    } else {
        let d = decimal(n);
        lemma_digit_char(n);
        assert(d.drop_last() =~= Seq::<char>::empty());
        assert(digits_value(d.drop_last()) == 0);
    }
}

proof fn lemma_u16_decimal(n: u16)
    ensures
        u16_value(decimal(n as nat)) == Some(n),
        clean_value(decimal(n as nat)),
{
    lemma_decimal_digits(n as nat);
    let d = decimal(n as nat);
    assert(d[0] != '+');
    assert(parse_unsigned(d, u16::MAX as nat) == Some(n as nat));
}

pub open spec fn multi_of(i: InterfaceModel, key: Seq<char>) -> Seq<Seq<char>> {
    if key == "Address"@ {
        i.address
    } else if key == "DNS"@ {
        i.dns
    } else if key == "PreUp"@ {
        i.pre_up
    } else if key == "PostUp"@ {
        i.post_up
    } else if key == "PreDown"@ {
        i.pre_down
    } else {
        i.post_down
    }
}

pub open spec fn with_multi(i: InterfaceModel, key: Seq<char>, vs: Seq<Seq<char>>) -> InterfaceModel {
    if key == "Address"@ {
        InterfaceModel { address: vs, ..i }
    } else if key == "DNS"@ {
        InterfaceModel { dns: vs, ..i }
    } else if key == "PreUp"@ {
        InterfaceModel { pre_up: vs, ..i }
    } else if key == "PostUp"@ {
        InterfaceModel { post_up: vs, ..i }
    } else if key == "PreDown"@ {
        InterfaceModel { pre_down: vs, ..i }
    } else {
        InterfaceModel { post_down: vs, ..i }
    }
}

pub open spec fn is_comma_key(key: Seq<char>) -> bool {
    key == "Address"@ || key == "DNS"@
}

pub open spec fn is_line_key(key: Seq<char>) -> bool {
    key == "PreUp"@ || key == "PostUp"@ || key == "PreDown"@ || key == "PostDown"@
}

proof fn lemma_fold_multi(x: InterfaceModel, key: Seq<char>, vs: Seq<Seq<char>>)
    requires
        is_comma_key(key) ==> all_items(vs),
        is_line_key(key) ==> all_clean(vs),
        is_comma_key(key) || is_line_key(key),
    ensures
        fold_interface(x, pairs(key, vs)) == with_multi(x, key, multi_of(x, key) + vs),
    decreases vs.len(),
{
    lemma_keys();
    if vs.len() == 0 {
        assert(multi_of(x, key) + vs =~= multi_of(x, key));
        assert(with_multi(x, key, multi_of(x, key)) =~= x);
    } else {
        let d = vs.drop_last();
        let v = vs.last();
        assert(pairs(key, vs).drop_last() =~= pairs(key, d));
        assert(pairs(key, vs).last() == (key, v));
        lemma_fold_multi(x, key, d);
        let y = with_multi(x, key, multi_of(x, key) + d);
        assert(multi_of(y, key) == multi_of(x, key) + d);
        if is_comma_key(key) {
            assert(clean_item(vs[vs.len() - 1]));
            lemma_comma_item(v);
        } else {
            assert(clean_value(vs[vs.len() - 1]));
        }
        assert(multi_of(x, key) + d + seq![v] =~= multi_of(x, key) + vs);
        assert(multi_of(x, key) + d + seq![v] =~= (multi_of(x, key) + d).push(v));
        assert(apply_interface_key_spec(y, key, v) =~= with_multi(x, key, multi_of(x, key) + vs));
    }
}

proof fn lemma_fold_interface_extras(x: InterfaceModel, es: Seq<(Seq<char>, Seq<char>)>)
    requires
        interface_extras_ok(es),
    ensures
        fold_interface(x, es) == (InterfaceModel { extras: x.extras + es, ..x }),
    decreases es.len(),
{
    if es.len() == 0 {
        assert(x.extras + es =~= x.extras);
        assert(InterfaceModel { extras: x.extras + es, ..x } =~= x);
    } else {
        let d = es.drop_last();
        assert(interface_extras_ok(d)) by {
            assert forall|j: int| 0 <= j < d.len() implies clean_key(#[trigger] d[j].0)
                && interface_extra(d[j].0, d[j].1) && clean_value(d[j].1) by {
                assert(d[j] == es[j]);
            }
        }
        lemma_fold_interface_extras(x, d);
        let kv = es[es.len() - 1];
        lemma_keys();
        assert(interface_extra(kv.0, kv.1));
        assert(x.extras + d + seq![kv] =~= x.extras + es);
        assert(apply_interface_key_spec(InterfaceModel { extras: x.extras + d, ..x }, kv.0, kv.1)
            =~= InterfaceModel { extras: x.extras + es, ..x });
    }
}

proof fn lemma_fold_peer_extras(x: PeerModel, es: Seq<(Seq<char>, Seq<char>)>)
    requires
        peer_extras_ok(es),
    ensures
        fold_peer(x, es) == (PeerModel { extras: x.extras + es, ..x }),
    decreases es.len(),
{
    if es.len() == 0 {
        assert(x.extras + es =~= x.extras);
        assert(PeerModel { extras: x.extras + es, ..x } =~= x);
    } else {
        let d = es.drop_last();
        assert(peer_extras_ok(d)) by {
            assert forall|j: int| 0 <= j < d.len() implies clean_key(#[trigger] d[j].0)
                && peer_extra(d[j].0, d[j].1) && clean_value(d[j].1) by {
                assert(d[j] == es[j]);
            }
        }
        lemma_fold_peer_extras(x, d);
        let kv = es[es.len() - 1];
        lemma_keys();
        assert(peer_extra(kv.0, kv.1));
        assert(x.extras + d + seq![kv] =~= x.extras + es);
        assert(apply_peer_key_spec(PeerModel { extras: x.extras + d, ..x }, kv.0, kv.1)
            =~= PeerModel { extras: x.extras + es, ..x });
    }
}

proof fn lemma_fold_allowed(x: PeerModel, vs: Seq<Seq<char>>)
    requires
        all_items(vs),
    ensures
        fold_peer(x, pairs("AllowedIPs"@, vs)) == (PeerModel { allowed_ips: x.allowed_ips + vs, ..x }),
    decreases vs.len(),
{
    lemma_keys();
    let key = "AllowedIPs"@;
    if vs.len() == 0 {
        assert(x.allowed_ips + vs =~= x.allowed_ips);
        assert(PeerModel { allowed_ips: x.allowed_ips + vs, ..x } =~= x);
    } else {
        let d = vs.drop_last();
        let v = vs.last();
        assert(pairs(key, vs).drop_last() =~= pairs(key, d));
        assert(pairs(key, vs).last() == (key, v));
        lemma_fold_allowed(x, d);
        assert(clean_item(vs[vs.len() - 1]));
        lemma_comma_item(v);
        assert(x.allowed_ips + d + seq![v] =~= x.allowed_ips + vs);
        assert(apply_peer_key_spec(PeerModel { allowed_ips: x.allowed_ips + d, ..x }, key, v)
            =~= PeerModel { allowed_ips: x.allowed_ips + vs, ..x });
    }
}

proof fn lemma_single_pair_fold_interface(x: InterfaceModel, k: Seq<char>, v: Seq<char>)
    ensures
        fold_interface(x, seq![(k, v)]) == if v.len() == 0 {
            x
        } else {
            apply_interface_key_spec(x, k, v)
        },
{
    assert(seq![(k, v)].drop_last() =~= Seq::<(Seq<char>, Seq<char>)>::empty());
    assert(seq![(k, v)].last() == (k, v));
    assert(fold_interface(x, seq![(k, v)].drop_last()) == x);
}

proof fn lemma_single_pair_fold_peer(x: PeerModel, k: Seq<char>, v: Seq<char>)
    ensures
        fold_peer(x, seq![(k, v)]) == if v.len() == 0 {
            x
        } else {
            apply_peer_key_spec(x, k, v)
        },
{
    assert(seq![(k, v)].drop_last() =~= Seq::<(Seq<char>, Seq<char>)>::empty());
    assert(seq![(k, v)].last() == (k, v));
    assert(fold_peer(x, seq![(k, v)].drop_last()) == x);
}

/// Folding the pairs that `interface_kvs` writes into an empty section gives the section back.
proof fn lemma_interface_reconstruct(i: InterfaceModel)
    requires
        interface_writable(i),
    ensures
        fold_interface(empty_interface(), interface_kvs(i)) == i,
{
    lemma_keys();
    let a1 = pairs("Address"@, i.address);
    let a2 = num_pair("ListenPort"@, i.listen_port);
    let a3 = opt_pair("PrivateKey"@, i.private_key);
    let a4 = pairs("DNS"@, i.dns);
    let a5 = num_pair("MTU"@, i.mtu);
    let a6 = opt_pair("Table"@, i.table);
    let a7 = pairs("PreUp"@, i.pre_up);
    let a8 = pairs("PostUp"@, i.post_up);
    let a9 = pairs("PreDown"@, i.pre_down);
    let a10 = pairs("PostDown"@, i.post_down);
    let a11 = i.extras;
    let e = empty_interface();
    lemma_fold_interface_concat(e, a1, a2);
    lemma_fold_interface_concat(e, a1 + a2, a3);
    lemma_fold_interface_concat(e, a1 + a2 + a3, a4);
    lemma_fold_interface_concat(e, a1 + a2 + a3 + a4, a5);
    lemma_fold_interface_concat(e, a1 + a2 + a3 + a4 + a5, a6);
    lemma_fold_interface_concat(e, a1 + a2 + a3 + a4 + a5 + a6, a7);
    lemma_fold_interface_concat(e, a1 + a2 + a3 + a4 + a5 + a6 + a7, a8);
    lemma_fold_interface_concat(e, a1 + a2 + a3 + a4 + a5 + a6 + a7 + a8, a9);
    lemma_fold_interface_concat(e, a1 + a2 + a3 + a4 + a5 + a6 + a7 + a8 + a9, a10);
    lemma_fold_interface_concat(e, a1 + a2 + a3 + a4 + a5 + a6 + a7 + a8 + a9 + a10, a11);

    lemma_fold_multi(e, "Address"@, i.address);
    let x1 = InterfaceModel { address: i.address, ..e };
    assert(fold_interface(e, a1) == x1) by {
        assert(Seq::<Seq<char>>::empty() + i.address =~= i.address);
    }
    let x2 = InterfaceModel { listen_port: i.listen_port, ..x1 };
    assert(fold_interface(x1, a2) == x2) by {
        match i.listen_port {
            Some(n) => {
                lemma_u16_decimal(n);
                lemma_single_pair_fold_interface(x1, "ListenPort"@, decimal(n as nat));
            },
            None => {},
        }
    }
    let x3 = InterfaceModel { private_key: i.private_key, ..x2 };
    assert(fold_interface(x2, a3) == x3) by {
        match i.private_key {
            Some(v) => {
                lemma_single_pair_fold_interface(x2, "PrivateKey"@, v);
            },
            None => {},
        }
    }
    lemma_fold_multi(x3, "DNS"@, i.dns);
    let x4 = InterfaceModel { dns: i.dns, ..x3 };
    assert(fold_interface(x3, a4) == x4) by {
        assert(Seq::<Seq<char>>::empty() + i.dns =~= i.dns);
    }
    let x5 = InterfaceModel { mtu: i.mtu, ..x4 };
    assert(fold_interface(x4, a5) == x5) by {
        match i.mtu {
            Some(n) => {
                lemma_u16_decimal(n);
                lemma_single_pair_fold_interface(x4, "MTU"@, decimal(n as nat));
            },
            None => {},
        }
    }
    let x6 = InterfaceModel { table: i.table, ..x5 };
    assert(fold_interface(x5, a6) == x6) by {
        match i.table {
            Some(v) => {
                lemma_single_pair_fold_interface(x5, "Table"@, v);
            },
            None => {},
        }
    }
    lemma_fold_multi(x6, "PreUp"@, i.pre_up);
    let x7 = InterfaceModel { pre_up: i.pre_up, ..x6 };
    assert(fold_interface(x6, a7) == x7) by {
        assert(Seq::<Seq<char>>::empty() + i.pre_up =~= i.pre_up);
    }
    lemma_fold_multi(x7, "PostUp"@, i.post_up);
    let x8 = InterfaceModel { post_up: i.post_up, ..x7 };
    assert(fold_interface(x7, a8) == x8) by {
        assert(Seq::<Seq<char>>::empty() + i.post_up =~= i.post_up);
    }
    lemma_fold_multi(x8, "PreDown"@, i.pre_down);
    let x9 = InterfaceModel { pre_down: i.pre_down, ..x8 };
    assert(fold_interface(x8, a9) == x9) by {
        assert(Seq::<Seq<char>>::empty() + i.pre_down =~= i.pre_down);
    }
    lemma_fold_multi(x9, "PostDown"@, i.post_down);
    let x10 = InterfaceModel { post_down: i.post_down, ..x9 };
    assert(fold_interface(x9, a10) == x10) by {
        assert(Seq::<Seq<char>>::empty() + i.post_down =~= i.post_down);
    }
    lemma_fold_interface_extras(x10, a11);
    assert(Seq::<(Seq<char>, Seq<char>)>::empty() + a11 =~= a11);
    assert(interface_kvs(i) == a1 + a2 + a3 + a4 + a5 + a6 + a7 + a8 + a9 + a10 + a11);
    assert(InterfaceModel { extras: x10.extras + a11, ..x10 } =~= i);
}

/// Folding the pairs that `peer_kvs` writes into an empty peer gives the peer back.
proof fn lemma_peer_reconstruct(p: PeerModel)
    requires
        peer_writable(p),
    ensures
        fold_peer(empty_peer(), peer_kvs(p)) == p,
{
    lemma_keys();
    let b1 = seq![("PublicKey"@, p.public_key)];
    let b2 = opt_pair("PresharedKey"@, p.preshared_key);
    let b3 = pairs("AllowedIPs"@, p.allowed_ips);
    let b4 = opt_pair("Endpoint"@, p.endpoint);
    let b5 = num_pair("PersistentKeepalive"@, p.persistent_keepalive);
    let b6 = p.extras;
    let e = empty_peer();
    lemma_fold_peer_concat(e, b1, b2);
    lemma_fold_peer_concat(e, b1 + b2, b3);
    lemma_fold_peer_concat(e, b1 + b2 + b3, b4);
    lemma_fold_peer_concat(e, b1 + b2 + b3 + b4, b5);
    lemma_fold_peer_concat(e, b1 + b2 + b3 + b4 + b5, b6);
    let y1 = PeerModel { public_key: p.public_key, ..e };
    assert(fold_peer(e, b1) == y1) by {
        lemma_single_pair_fold_peer(e, "PublicKey"@, p.public_key);
        if p.public_key.len() == 0 {
            assert(p.public_key =~= Seq::<char>::empty());
        }
    }
    let y2 = PeerModel { preshared_key: p.preshared_key, ..y1 };
    assert(fold_peer(y1, b2) == y2) by {
        match p.preshared_key {
            Some(v) => {
                lemma_single_pair_fold_peer(y1, "PresharedKey"@, v);
            },
            None => {},
        }
    }
    lemma_fold_allowed(y2, p.allowed_ips);
    let y3 = PeerModel { allowed_ips: p.allowed_ips, ..y2 };
    assert(fold_peer(y2, b3) == y3) by {
        assert(Seq::<Seq<char>>::empty() + p.allowed_ips =~= p.allowed_ips);
    }
    let y4 = PeerModel { endpoint: p.endpoint, ..y3 };
    assert(fold_peer(y3, b4) == y4) by {
        match p.endpoint {
            Some(v) => {
                lemma_single_pair_fold_peer(y3, "Endpoint"@, v);
            },
            None => {},
        }
    }
    let y5 = PeerModel { persistent_keepalive: p.persistent_keepalive, ..y4 };
    assert(fold_peer(y4, b5) == y5) by {
        match p.persistent_keepalive {
            Some(n) => {
                lemma_u16_decimal(n);
                lemma_single_pair_fold_peer(y4, "PersistentKeepalive"@, decimal(n as nat));
            },
            None => {},
        }
    }
    lemma_fold_peer_extras(y5, b6);
    assert(Seq::<(Seq<char>, Seq<char>)>::empty() + b6 =~= b6);
    assert(peer_kvs(p) == b1 + b2 + b3 + b4 + b5 + b6);
    assert(PeerModel { extras: y5.extras + b6, ..y5 } =~= p);
}

// ---------------------------------------------------------------------------
// The written text, line by line
// ---------------------------------------------------------------------------

/// Lines joined, each followed by a line break.
pub open spec fn join_lines(ls: Seq<Seq<char>>) -> Seq<char>
    decreases ls.len(),
{
    if ls.len() == 0 {
        Seq::empty()
    } else {
        join_lines(ls.drop_last()) + ls.last() + seq!['\n']
    }
}

proof fn lemma_join_append(a: Seq<Seq<char>>, b: Seq<Seq<char>>)
    ensures
        join_lines(a + b) == join_lines(a) + join_lines(b),
    decreases b.len(),
{
    if b.len() == 0 {
        assert(a + b =~= a);
        assert(join_lines(a) + join_lines(b) =~= join_lines(a));
    } else {
        assert((a + b).drop_last() =~= a + b.drop_last());
        lemma_join_append(a, b.drop_last());
        assert(join_lines(a + b) =~= join_lines(a) + join_lines(b));
    }
}

proof fn lemma_join_single(l: Seq<char>)
    ensures
        join_lines(seq![l]) == l + seq!['\n'],
{
    assert(seq![l].drop_last() =~= Seq::<Seq<char>>::empty());
    assert(seq![l].last() == l);
    assert(join_lines(seq![l].drop_last()) == Seq::<char>::empty());
    assert(join_lines(seq![l]) =~= l + seq!['\n']);
}

proof fn lemma_kv_text_join(kvs: Seq<(Seq<char>, Seq<char>)>)
    ensures
        kv_text(kvs) == join_lines(kv_lines(kvs)),
    decreases kvs.len(),
{
    reveal_strlit("\n");
    if kvs.len() == 0 {
        assert(kv_lines(kvs) =~= Seq::<Seq<char>>::empty());
    } else {
        lemma_kv_text_join(kvs.drop_last());
        assert(kv_lines(kvs).drop_last() =~= kv_lines(kvs.drop_last()));
        let kv = kvs.last();
        assert(kv_lines(kvs).last() == key_line(kv.0, kv.1));
        assert(kv_line(kv.0, kv.1) =~= key_line(kv.0, kv.1) + seq!['\n']);
        assert(kv_text(kvs) =~= join_lines(kv_lines(kvs)));
    }
}

pub open spec fn plain_line(l: Seq<char>) -> bool {
    &&& forall|j: int| 0 <= j < l.len() ==> #[trigger] l[j] != '\n'
    &&& (l.len() == 0 || l.last() != '\r')
}

pub open spec fn all_plain(ls: Seq<Seq<char>>) -> bool {
    forall|j: int| 0 <= j < ls.len() ==> plain_line(#[trigger] ls[j])
}

proof fn lemma_split_join(ls: Seq<Seq<char>>)
    requires
        all_plain(ls),
    ensures
        split_char(join_lines(ls), '\n') == ls.push(Seq::<char>::empty()),
    decreases ls.len(),
{
    if ls.len() == 0 {
        assert(split_char(Seq::<char>::empty(), '\n') =~= seq![Seq::<char>::empty()]);
        assert(ls.push(Seq::<char>::empty()) =~= seq![Seq::<char>::empty()]);
    } else {
        let d = ls.drop_last();
        let l = ls.last();
        assert(all_plain(d)) by {
            assert forall|j: int| 0 <= j < d.len() implies plain_line(#[trigger] d[j]) by {
                assert(d[j] == ls[j]);
            }
        }
        lemma_split_join(d);
        assert(plain_line(ls[ls.len() - 1]));
        lemma_split_append_plain(join_lines(d), l, '\n');
        let t = join_lines(d) + l;
        assert(split_char(t, '\n') =~= d.push(l));
        let full = t + seq!['\n'];
        assert(full.drop_last() =~= t);
        assert(full.last() == '\n');
        assert(split_char(full, '\n') =~= ls.push(Seq::<char>::empty()));
    }
}

/// Lines without line breaks, joined, are read back as the same lines.
pub proof fn lemma_lines_join(ls: Seq<Seq<char>>)
    requires
        all_plain(ls),
    ensures
        lines(join_lines(ls)) == ls,
{
    lemma_split_join(ls);
    let ps = ls.push(Seq::<char>::empty());
    assert(ps.drop_last() =~= ls);
    assert forall|j: int| 0 <= j < ls.len() implies strip_cr(#[trigger] ls[j]) == ls[j] by {
        assert(plain_line(ls[j]));
    }
    assert(ls.map_values(|p: Seq<char>| strip_cr(p)) =~= ls);
}

pub open spec fn interface_lines(i: InterfaceModel) -> Seq<Seq<char>> {
    seq!["[Interface]"@] + kv_lines(interface_kvs(i))
}

pub open spec fn peer_lines(p: PeerModel) -> Seq<Seq<char>> {
    seq!["[Peer]"@] + kv_lines(peer_kvs(p))
}

pub open spec fn peers_lines(ps: Seq<PeerModel>) -> Seq<Seq<char>>
    decreases ps.len(),
{
    if ps.len() == 0 {
        Seq::empty()
    } else if ps.len() == 1 {
        peer_lines(ps[0])
    } else {
        peers_lines(ps.drop_last()) + seq![Seq::<char>::empty()] + peer_lines(ps.last())
    }
}

/// The lines that `serialize_conf` writes for `c`.
pub open spec fn conf_lines(c: ConfModel) -> Seq<Seq<char>> {
    if c.peers.len() == 0 {
        interface_lines(c.interface)
    } else {
        interface_lines(c.interface) + seq![Seq::<char>::empty()] + peers_lines(c.peers)
    }
}

proof fn lemma_header_text(h: Seq<char>, hn: Seq<char>, kvs: Seq<(Seq<char>, Seq<char>)>)
    requires
        hn == h + seq!['\n'],
    ensures
        hn + kv_text(kvs) == join_lines(seq![h] + kv_lines(kvs)),
{
    lemma_kv_text_join(kvs);
    lemma_join_append(seq![h], kv_lines(kvs));
    lemma_join_single(h);
}

proof fn lemma_peers_text(ps: Seq<PeerModel>)
    ensures
        peers_text(ps) == join_lines(peers_lines(ps)),
    decreases ps.len(),
{
    reveal_strlit("[Peer]\n");
    reveal_strlit("[Peer]");
    reveal_strlit("\n");
    assert("[Peer]\n"@ =~= "[Peer]"@ + seq!['\n']);
    if ps.len() == 0 {
    } else if ps.len() == 1 {
        lemma_header_text("[Peer]"@, "[Peer]\n"@, peer_kvs(ps[0]));
    } else {
        lemma_peers_text(ps.drop_last());
        lemma_header_text("[Peer]"@, "[Peer]\n"@, peer_kvs(ps.last()));
        let a = peers_lines(ps.drop_last());
        let b = seq![Seq::<char>::empty()];
        let c = peer_lines(ps.last());
        lemma_join_append(a + b, c);
        lemma_join_append(a, b);
        lemma_join_single(Seq::<char>::empty());
        assert(Seq::<char>::empty() + seq!['\n'] =~= "\n"@);
        assert(peers_text(ps) =~= join_lines(peers_lines(ps)));
    }
}

proof fn lemma_conf_text(c: ConfModel)
    ensures
        serialize_conf_spec(c) == join_lines(conf_lines(c)),
{
    reveal_strlit("[Interface]\n");
    reveal_strlit("[Interface]");
    reveal_strlit("\n");
    assert("[Interface]\n"@ =~= "[Interface]"@ + seq!['\n']);
    lemma_header_text("[Interface]"@, "[Interface]\n"@, interface_kvs(c.interface));
    if c.peers.len() > 0 {
        let a = interface_lines(c.interface);
        let b = seq![Seq::<char>::empty()];
        let p = peers_lines(c.peers);
        lemma_peers_text(c.peers);
        lemma_join_append(a + b, p);
        lemma_join_append(a, b);
        lemma_join_single(Seq::<char>::empty());
        assert(Seq::<char>::empty() + seq!['\n'] =~= "\n"@);
        assert(serialize_conf_spec(c) =~= join_lines(conf_lines(c)));
    }
}

// ---------------------------------------------------------------------------
// Which pairs are written
// ---------------------------------------------------------------------------

proof fn lemma_kvs_clean_append(a: Seq<(Seq<char>, Seq<char>)>, b: Seq<(Seq<char>, Seq<char>)>)
    requires
        kvs_clean(a),
        kvs_clean(b),
    ensures
        kvs_clean(a + b),
{
    assert forall|j: int| 0 <= j < (a + b).len() implies clean_key(#[trigger] (a + b)[j].0) && (
    (a + b)[j].1.len() == 0 || clean_value((a + b)[j].1)) by {
        if j < a.len() {
            assert((a + b)[j] == a[j]);
        } else {
            assert((a + b)[j] == b[j - a.len()]);
        }
    }
}

proof fn lemma_pairs_clean(key: Seq<char>, vs: Seq<Seq<char>>)
    requires
        clean_key(key),
        all_clean(vs),
    ensures
        kvs_clean(pairs(key, vs)),
{
    assert forall|j: int| 0 <= j < pairs(key, vs).len() implies clean_key(
        #[trigger] pairs(key, vs)[j].0,
    ) && (pairs(key, vs)[j].1.len() == 0 || clean_value(pairs(key, vs)[j].1)) by {
        assert(pairs(key, vs)[j] == (key, vs[j]));
    }
}

proof fn lemma_items_clean(vs: Seq<Seq<char>>)
    requires
        all_items(vs),
    ensures
        all_clean(vs),
{
    assert forall|j: int| 0 <= j < vs.len() implies clean_value(#[trigger] vs[j]) by {
        assert(clean_item(vs[j]));
    }
}

proof fn lemma_opt_clean(key: Seq<char>, v: Option<Seq<char>>)
    requires
        clean_key(key),
        opt_clean(v),
    ensures
        kvs_clean(opt_pair(key, v)),
{
}

proof fn lemma_num_clean(key: Seq<char>, v: Option<u16>)
    requires
        clean_key(key),
    ensures
        kvs_clean(num_pair(key, v)),
{
    match v {
        Some(n) => {
            lemma_u16_decimal(n);
        },
        None => {},
    }
}

proof fn lemma_interface_kvs_clean(i: InterfaceModel)
    requires
        interface_writable(i),
    ensures
        kvs_clean(interface_kvs(i)),
{
    lemma_keys();
    lemma_items_clean(i.address);
    lemma_items_clean(i.dns);
    let a1 = pairs("Address"@, i.address);
    let a2 = num_pair("ListenPort"@, i.listen_port);
    let a3 = opt_pair("PrivateKey"@, i.private_key);
    let a4 = pairs("DNS"@, i.dns);
    let a5 = num_pair("MTU"@, i.mtu);
    let a6 = opt_pair("Table"@, i.table);
    let a7 = pairs("PreUp"@, i.pre_up);
    let a8 = pairs("PostUp"@, i.post_up);
    let a9 = pairs("PreDown"@, i.pre_down);
    let a10 = pairs("PostDown"@, i.post_down);
    let a11 = i.extras;
    lemma_pairs_clean("Address"@, i.address);
    lemma_num_clean("ListenPort"@, i.listen_port);
    lemma_opt_clean("PrivateKey"@, i.private_key);
    lemma_pairs_clean("DNS"@, i.dns);
    lemma_num_clean("MTU"@, i.mtu);
    lemma_opt_clean("Table"@, i.table);
    lemma_pairs_clean("PreUp"@, i.pre_up);
    lemma_pairs_clean("PostUp"@, i.post_up);
    lemma_pairs_clean("PreDown"@, i.pre_down);
    lemma_pairs_clean("PostDown"@, i.post_down);
    assert(kvs_clean(a11));
    lemma_kvs_clean_append(a1, a2);
    lemma_kvs_clean_append(a1 + a2, a3);
    lemma_kvs_clean_append(a1 + a2 + a3, a4);
    lemma_kvs_clean_append(a1 + a2 + a3 + a4, a5);
    lemma_kvs_clean_append(a1 + a2 + a3 + a4 + a5, a6);
    lemma_kvs_clean_append(a1 + a2 + a3 + a4 + a5 + a6, a7);
    lemma_kvs_clean_append(a1 + a2 + a3 + a4 + a5 + a6 + a7, a8);
    lemma_kvs_clean_append(a1 + a2 + a3 + a4 + a5 + a6 + a7 + a8, a9);
    lemma_kvs_clean_append(a1 + a2 + a3 + a4 + a5 + a6 + a7 + a8 + a9, a10);
    lemma_kvs_clean_append(a1 + a2 + a3 + a4 + a5 + a6 + a7 + a8 + a9 + a10, a11);
}

proof fn lemma_peer_kvs_clean(p: PeerModel)
    requires
        peer_writable(p),
    ensures
        kvs_clean(peer_kvs(p)),
{
    lemma_keys();
    lemma_items_clean(p.allowed_ips);
    let b1 = seq![("PublicKey"@, p.public_key)];
    let b2 = opt_pair("PresharedKey"@, p.preshared_key);
    let b3 = pairs("AllowedIPs"@, p.allowed_ips);
    let b4 = opt_pair("Endpoint"@, p.endpoint);
    let b5 = num_pair("PersistentKeepalive"@, p.persistent_keepalive);
    let b6 = p.extras;
    assert(kvs_clean(b1)) by {
        assert(b1[0] == ("PublicKey"@, p.public_key));
    }
    lemma_opt_clean("PresharedKey"@, p.preshared_key);
    lemma_pairs_clean("AllowedIPs"@, p.allowed_ips);
    lemma_opt_clean("Endpoint"@, p.endpoint);
    lemma_num_clean("PersistentKeepalive"@, p.persistent_keepalive);
    assert(kvs_clean(b6));
    lemma_kvs_clean_append(b1, b2);
    lemma_kvs_clean_append(b1 + b2, b3);
    lemma_kvs_clean_append(b1 + b2 + b3, b4);
    lemma_kvs_clean_append(b1 + b2 + b3 + b4, b5);
    lemma_kvs_clean_append(b1 + b2 + b3 + b4 + b5, b6);
}

proof fn lemma_kv_lines_plain(kvs: Seq<(Seq<char>, Seq<char>)>)
    requires
        kvs_clean(kvs),
    ensures
        all_plain(kv_lines(kvs)),
{
    reveal_strlit(" = ");
    assert forall|j: int| 0 <= j < kv_lines(kvs).len() implies plain_line(
        #[trigger] kv_lines(kvs)[j],
    ) by {
        let kv = kvs[j];
        let l = key_line(kv.0, kv.1);
        assert(kv_lines(kvs)[j] == l);
        let kl = kv.0.len() as int;
        assert forall|m: int| 0 <= m < l.len() implies #[trigger] l[m] != '\n' by {
            if m < kl {
                assert(l[m] == kv.0[m]);
            } else if m >= kl + 3 {
                assert(l[m] == kv.1[m - kl - 3]);
            }
        }
        if kv.1.len() > 0 {
            assert(l.last() == kv.1.last());
        }
    }
}

proof fn lemma_plain_append(a: Seq<Seq<char>>, b: Seq<Seq<char>>)
    requires
        all_plain(a),
        all_plain(b),
    ensures
        all_plain(a + b),
{
    assert forall|j: int| 0 <= j < (a + b).len() implies plain_line(#[trigger] (a + b)[j]) by {
        if j < a.len() {
            assert((a + b)[j] == a[j]);
        } else {
            assert((a + b)[j] == b[j - a.len()]);
        }
    }
}

proof fn lemma_header_plain(h: Seq<char>, kvs: Seq<(Seq<char>, Seq<char>)>)
    requires
        plain_line(h),
        kvs_clean(kvs),
    ensures
        all_plain(seq![h] + kv_lines(kvs)),
{
    lemma_kv_lines_plain(kvs);
    assert(all_plain(seq![h])) by {
        assert(seq![h][0] == h);
    }
    lemma_plain_append(seq![h], kv_lines(kvs));
}

proof fn lemma_blank_plain()
    ensures
        all_plain(seq![Seq::<char>::empty()]),
{
    assert(seq![Seq::<char>::empty()][0] == Seq::<char>::empty());
}

proof fn lemma_peers_plain(ps: Seq<PeerModel>)
    requires
        forall|j: int| 0 <= j < ps.len() ==> peer_writable(#[trigger] ps[j]),
    ensures
        all_plain(peers_lines(ps)),
    decreases ps.len(),
{
    reveal_strlit("[Peer]");
    if ps.len() == 1 {
        lemma_peer_kvs_clean(ps[0]);
        lemma_header_plain("[Peer]"@, peer_kvs(ps[0]));
    } else if ps.len() > 1 {
        let d = ps.drop_last();
        assert(forall|j: int| 0 <= j < d.len() ==> d[j] == ps[j]);
        lemma_peers_plain(d);
        assert(peer_writable(ps[ps.len() - 1]));
        lemma_peer_kvs_clean(ps.last());
        lemma_header_plain("[Peer]"@, peer_kvs(ps.last()));
        lemma_blank_plain();
        lemma_plain_append(peers_lines(d), seq![Seq::<char>::empty()]);
        lemma_plain_append(
            peers_lines(d) + seq![Seq::<char>::empty()],
            peer_lines(ps.last()),
        );
    }
}

proof fn lemma_conf_plain(c: ConfModel)
    requires
        conf_writable(c),
    ensures
        all_plain(conf_lines(c)),
{
    reveal_strlit("[Interface]");
    lemma_interface_kvs_clean(c.interface);
    lemma_header_plain("[Interface]"@, interface_kvs(c.interface));
    if c.peers.len() > 0 {
        lemma_peers_plain(c.peers);
        lemma_blank_plain();
        lemma_plain_append(interface_lines(c.interface), seq![Seq::<char>::empty()]);
        lemma_plain_append(
            interface_lines(c.interface) + seq![Seq::<char>::empty()],
            peers_lines(c.peers),
        );
    }
}

// ---------------------------------------------------------------------------
// Reading the written lines
// ---------------------------------------------------------------------------

proof fn lemma_parse_one(st: ParseState, l: Seq<char>, f: nat)
    ensures
        parse_lines_from(st, seq![l], f) == parse_line_spec(st, l, f + 1),
{
    assert(seq![l].drop_last() =~= Seq::<Seq<char>>::empty());
    assert(seq![l].last() == l);
    assert(parse_lines_from(st, seq![l].drop_last(), f) == Ok::<ParseState, Seq<char>>(st));
}

proof fn lemma_parse_peer_lines(st: ParseState, p: PeerModel, f: nat)
    requires
        peer_writable(p),
    ensures
        parse_lines_from(st, peer_lines(p), f) == Ok::<ParseState, Seq<char>>(
            ParseState {
                conf: ConfModel { peers: st.conf.peers.push(p), ..st.conf },
                section: 2,
            },
        ),
{
    let h = seq!["[Peer]"@];
    let kl = kv_lines(peer_kvs(p));
    lemma_parse_concat(st, h, kl, f);
    lemma_parse_one(st, "[Peer]"@, f);
    lemma_peer_header(st, f + 1);
    let s1 = ParseState {
        conf: ConfModel { peers: st.conf.peers.push(empty_peer()), ..st.conf },
        section: 2,
    };
    lemma_peer_kvs_clean(p);
    lemma_parse_peer_kvs(s1, peer_kvs(p), f + 1);
    lemma_peer_reconstruct(p);
    assert(s1.conf.peers.last() == empty_peer());
    assert(s1.conf.peers.update(s1.conf.peers.len() - 1, p) =~= st.conf.peers.push(p));
}

proof fn lemma_parse_peers_lines(st: ParseState, ps: Seq<PeerModel>, f: nat)
    requires
        ps.len() > 0,
        forall|j: int| 0 <= j < ps.len() ==> peer_writable(#[trigger] ps[j]),
    ensures
        parse_lines_from(st, peers_lines(ps), f) == Ok::<ParseState, Seq<char>>(
            ParseState { conf: ConfModel { peers: st.conf.peers + ps, ..st.conf }, section: 2 },
        ),
    decreases ps.len(),
{
    if ps.len() == 1 {
        assert(peer_writable(ps[0]));
        lemma_parse_peer_lines(st, ps[0], f);
        assert(st.conf.peers.push(ps[0]) =~= st.conf.peers + ps);
    } else {
        let d = ps.drop_last();
        assert(forall|j: int| 0 <= j < d.len() ==> d[j] == ps[j]);
        lemma_parse_peers_lines(st, d, f);
        let a = peers_lines(d);
        let b = seq![Seq::<char>::empty()];
        let c = peer_lines(ps.last());
        lemma_parse_concat(st, a + b, c, f);
        lemma_parse_concat(st, a, b, f);
        let s1 = ParseState { conf: ConfModel { peers: st.conf.peers + d, ..st.conf }, section: 2 };
        lemma_parse_one(s1, Seq::<char>::empty(), f + a.len());
        lemma_blank_line(s1, f + a.len() + 1);
        assert(peer_writable(ps[ps.len() - 1]));
        lemma_parse_peer_lines(s1, ps.last(), f + (a + b).len());
        assert((st.conf.peers + d).push(ps.last()) =~= st.conf.peers + ps);
    }
}

/// `parse_conf` gives back every configuration that `serialize_conf` writes, whenever
/// each of its values can stand in the format (see `conf_writable`).
pub proof fn lemma_parse_serialize_roundtrip(c: ConfModel)
    requires
        conf_writable(c),
    ensures
        parse_conf_spec(serialize_conf_spec(c)) == Ok::<ConfModel, Seq<char>>(c),
{
    lemma_conf_text(c);
    lemma_conf_plain(c);
    lemma_lines_join(conf_lines(c));
    let st0 = initial_state();
    let il = interface_lines(c.interface);
    let h = seq!["[Interface]"@];
    let kl = kv_lines(interface_kvs(c.interface));
    lemma_parse_concat(st0, h, kl, 0);
    lemma_parse_one(st0, "[Interface]"@, 0);
    lemma_interface_header(st0, 1);
    let s1 = ParseState { conf: st0.conf, section: 1 };
    lemma_interface_kvs_clean(c.interface);
    lemma_parse_interface_kvs(s1, interface_kvs(c.interface), 1);
    lemma_interface_reconstruct(c.interface);
    let s2 = ParseState {
        conf: ConfModel { interface: c.interface, peers: Seq::empty() },
        section: 1,
    };
    assert(parse_lines_from(st0, il, 0) == Ok::<ParseState, Seq<char>>(s2)) by {
        assert(ConfModel { interface: fold_interface(empty_interface(), interface_kvs(c.interface)), ..s1.conf } =~= s2.conf);
    }
    if c.peers.len() == 0 {
        assert(s2.conf =~= c);
    } else {
        let b = seq![Seq::<char>::empty()];
        let pl = peers_lines(c.peers);
        lemma_parse_concat(st0, il + b, pl, 0);
        lemma_parse_concat(st0, il, b, 0);
        lemma_parse_one(s2, Seq::<char>::empty(), il.len());
        lemma_blank_line(s2, il.len() + 1);
        lemma_parse_peers_lines(s2, c.peers, (il + b).len());
        assert(ConfModel { peers: s2.conf.peers + c.peers, ..s2.conf } =~= c);
    }
}

// ---------------------------------------------------------------------------
// Everything that is read can be written
// ---------------------------------------------------------------------------

pub open spec fn chars_ok(s: Seq<char>, p: spec_fn(char) -> bool) -> bool {
    forall|j: int| 0 <= j < s.len() ==> p(#[trigger] s[j])
}

proof fn lemma_trim_start_props(s: Seq<char>, p: spec_fn(char) -> bool)
    ensures
        chars_ok(s, p) ==> chars_ok(trim_start(s), p),
        trim_start(s).len() > 0 ==> !is_ws(trim_start(s)[0]),
    decreases s.len(),
{
    if s.len() > 0 && is_ws(s[0]) {
        assert(chars_ok(s, p) ==> chars_ok(s.drop_first(), p)) by {
            if chars_ok(s, p) {
                assert forall|j: int| 0 <= j < s.drop_first().len() implies p(
                    #[trigger] s.drop_first()[j],
                ) by {
                    assert(s.drop_first()[j] == s[j + 1]);
                }
            }
        }
        lemma_trim_start_props(s.drop_first(), p);
    }
}

proof fn lemma_trim_end_props(s: Seq<char>, p: spec_fn(char) -> bool)
    ensures
        chars_ok(s, p) ==> chars_ok(trim_end(s), p),
        trim_end(s).len() > 0 ==> !is_ws(trim_end(s).last()),
        trim_end(s).len() > 0 ==> trim_end(s)[0] == s[0],
        trim_end(s).len() <= s.len(),
    decreases s.len(),
{
    if s.len() > 0 && is_ws(s.last()) {
        assert(chars_ok(s, p) ==> chars_ok(s.drop_last(), p)) by {
            if chars_ok(s, p) {
                assert forall|j: int| 0 <= j < s.drop_last().len() implies p(
                    #[trigger] s.drop_last()[j],
                ) by {
                    assert(s.drop_last()[j] == s[j]);
                }
            }
        }
        lemma_trim_end_props(s.drop_last(), p);
        if trim_end(s).len() > 0 {
            assert(s.drop_last()[0] == s[0]);
        }
    }
}

proof fn lemma_trim_props(s: Seq<char>, p: spec_fn(char) -> bool)
    ensures
        chars_ok(s, p) ==> chars_ok(trim(s), p),
        trim(s).len() > 0 ==> !is_ws(trim(s)[0]) && !is_ws(trim(s).last()),
        trim(s).len() > 0 && s.len() > 0 && !is_ws(s[0]) ==> trim(s)[0] == s[0],
{
    lemma_trim_start_props(s, p);
    lemma_trim_end_props(trim_start(s), p);
}

pub open spec fn no_nl(c: char) -> bool {
    c != '\n'
}

pub open spec fn value_char(c: char) -> bool {
    c != '\n' && !is_comment_char(c)
}

pub open spec fn key_char(c: char) -> bool {
    c != '\n' && !is_comment_char(c) && c != '='
}

pub open spec fn item_char(c: char) -> bool {
    c != '\n' && !is_comment_char(c) && c != ','
}

proof fn lemma_split_pieces(s: Seq<char>)
    requires
        chars_ok(s, |c: char| value_char(c)),
    ensures
        forall|j: int|
            0 <= j < split_char(s, ',').len() ==> chars_ok(
                #[trigger] split_char(s, ',')[j],
                |c: char| item_char(c),
            ),
    decreases s.len(),
{
    lemma_split_char_nonempty(s, ',');
    if s.len() > 0 {
        let d = s.drop_last();
        assert(chars_ok(d, |c: char| value_char(c))) by {
            assert forall|j: int| 0 <= j < d.len() implies value_char(#[trigger] d[j]) by {
                assert(d[j] == s[j]);
            }
        }
        lemma_split_pieces(d);
        lemma_split_char_nonempty(d, ',');
        let ps = split_char(d, ',');
        assert(value_char(s[s.len() - 1]));
        if s.last() != ',' {
            let l = ps.last().push(s.last());
            assert(chars_ok(ps[ps.len() - 1], |c: char| item_char(c)));
            assert(chars_ok(l, |c: char| item_char(c))) by {
                assert forall|j: int| 0 <= j < l.len() implies item_char(#[trigger] l[j]) by {
                    if j < l.len() - 1 {
                        assert(l[j] == ps.last()[j]);
                    }
                }
            }
        } else {
            assert(chars_ok(Seq::<char>::empty(), |c: char| item_char(c)));
        }
    } else {
        assert(split_char(s, ',')[0] =~= Seq::<char>::empty());
    }
}

proof fn lemma_keep_trimmed_items(ps: Seq<Seq<char>>)
    requires
        forall|j: int| 0 <= j < ps.len() ==> chars_ok(#[trigger] ps[j], |c: char| item_char(c)),
    ensures
        all_items(keep_trimmed(ps)),
    decreases ps.len(),
{
    if ps.len() > 0 {
        let d = ps.drop_last();
        assert(forall|j: int| 0 <= j < d.len() ==> d[j] == ps[j]);
        lemma_keep_trimmed_items(d);
        let t = trim(ps.last());
        assert(chars_ok(ps[ps.len() - 1], |c: char| item_char(c)));
        lemma_trim_props(ps.last(), |c: char| item_char(c));
        if t.len() > 0 {
            let r = keep_trimmed(d).push(t);
            assert forall|j: int| 0 <= j < r.len() implies clean_item(#[trigger] r[j]) by {
                if j < r.len() - 1 {
                    assert(r[j] == keep_trimmed(d)[j]);
                } else {
                    assert(r[j] == t);
                    assert(forall|m: int| 0 <= m < t.len() ==> item_char(#[trigger] t[m]));
                }
            }
        }
    }
}

proof fn lemma_comma_values_items(v: Seq<char>)
    requires
        chars_ok(v, |c: char| value_char(c)),
    ensures
        all_items(comma_values(v)),
{
    lemma_split_pieces(v);
    lemma_keep_trimmed_items(split_char(v, ','));
}

proof fn lemma_items_append(a: Seq<Seq<char>>, b: Seq<Seq<char>>)
    requires
        all_items(a),
        all_items(b),
    ensures
        all_items(a + b),
{
    assert forall|j: int| 0 <= j < (a + b).len() implies clean_item(#[trigger] (a + b)[j]) by {
        if j < a.len() {
            assert((a + b)[j] == a[j]);
        } else {
            assert((a + b)[j] == b[j - a.len()]);
        }
    }
}

proof fn lemma_clean_push(a: Seq<Seq<char>>, v: Seq<char>)
    requires
        all_clean(a),
        clean_value(v),
    ensures
        all_clean(a.push(v)),
{
    assert forall|j: int| 0 <= j < a.push(v).len() implies clean_value(#[trigger] a.push(v)[j]) by {
        if j < a.len() {
            assert(a.push(v)[j] == a[j]);
        }
    }
}

proof fn lemma_apply_interface_writable(i: InterfaceModel, k: Seq<char>, v: Seq<char>)
    requires
        interface_writable(i),
        clean_key(k),
        clean_value(v),
    ensures
        interface_writable(apply_interface_key_spec(i, k, v)),
{
    lemma_keys();
    assert(chars_ok(v, |c: char| value_char(c)));
    if k == "Address"@ {
        lemma_comma_values_items(v);
        lemma_items_append(i.address, comma_values(v));
    } else if k == "DNS"@ {
        lemma_comma_values_items(v);
        lemma_items_append(i.dns, comma_values(v));
    } else if k == "PreUp"@ {
        lemma_clean_push(i.pre_up, v);
    } else if k == "PostUp"@ {
        lemma_clean_push(i.post_up, v);
    } else if k == "PreDown"@ {
        lemma_clean_push(i.pre_down, v);
    } else if k == "PostDown"@ {
        lemma_clean_push(i.post_down, v);
    } else if interface_extra(k, v) {
        let es = i.extras.push((k, v));
        assert forall|j: int| 0 <= j < es.len() implies #[trigger] clean_key(es[j].0)
            && interface_extra(es[j].0, es[j].1) && clean_value(es[j].1) by {
            if j < i.extras.len() {
                assert(es[j] == i.extras[j]);
            }
        }
    }
}

proof fn lemma_apply_peer_writable(p: PeerModel, k: Seq<char>, v: Seq<char>)
    requires
        peer_writable(p),
        clean_key(k),
        clean_value(v),
    ensures
        peer_writable(apply_peer_key_spec(p, k, v)),
{
    lemma_keys();
    assert(chars_ok(v, |c: char| value_char(c)));
    if k == "AllowedIPs"@ {
        lemma_comma_values_items(v);
        lemma_items_append(p.allowed_ips, comma_values(v));
    } else if peer_extra(k, v) {
        let es = p.extras.push((k, v));
        assert forall|j: int| 0 <= j < es.len() implies #[trigger] clean_key(es[j].0)
            && peer_extra(es[j].0, es[j].1) && clean_value(es[j].1) by {
            if j < p.extras.len() {
                assert(es[j] == p.extras[j]);
            }
        }
    }
}

/// The key and value of a `key = value` line are a clean key and a clean (or empty) value.
proof fn lemma_kv_split_clean(raw: Seq<char>)
    requires
        chars_ok(raw, |c: char| no_nl(c)),
        trim(without_comment(raw)).len() > 0,
        trim(without_comment(raw))[0] != '[',
        kv_split(trim(without_comment(raw))) is Some,
    ensures
        ({
            let (k, v) = kv_split(trim(without_comment(raw)))->0;
            clean_key(k) && (v.len() == 0 || clean_value(v))
        }),
{
    let wc = without_comment(raw);
    lemma_first_where_bounds(raw, |c: char| is_comment_char(c));
    let pos = first_where(raw, |c: char| is_comment_char(c)) as int;
    assert(chars_ok(wc, |c: char| value_char(c))) by {
        assert forall|j: int| 0 <= j < wc.len() implies value_char(#[trigger] wc[j]) by {
            assert(wc[j] == raw[j]);
            assert(no_nl(raw[j]));
        }
    }
    let l = trim(wc);
    lemma_trim_props(wc, |c: char| value_char(c));
    lemma_first_where_bounds(l, |c: char| c == '=');
    let eq = first_where(l, |c: char| c == '=') as int;
    let kp = l.take(eq);
    let vp = l.skip(eq + 1);
    assert(chars_ok(kp, |c: char| key_char(c))) by {
        assert forall|j: int| 0 <= j < kp.len() implies key_char(#[trigger] kp[j]) by {
            assert(kp[j] == l[j]);
            assert(value_char(l[j]));
        }
    }
    assert(chars_ok(vp, |c: char| value_char(c))) by {
        assert forall|j: int| 0 <= j < vp.len() implies value_char(#[trigger] vp[j]) by {
            assert(vp[j] == l[j + eq + 1]);
        }
    }
    let k = trim(kp);
    let v = trim(vp);
    lemma_trim_props(kp, |c: char| key_char(c));
    lemma_trim_props(vp, |c: char| value_char(c));
    assert(k.len() > 0);
    assert(kp.len() > 0);
    assert(kp[0] == l[0]);
    assert(k[0] == kp[0]);
    assert(forall|j: int| 0 <= j < k.len() ==> key_char(#[trigger] k[j]));
    assert(forall|j: int| 0 <= j < v.len() ==> value_char(#[trigger] v[j]));
    assert(clean_key(k));
}

proof fn lemma_line_writable(st: ParseState, raw: Seq<char>, n: nat)
    requires
        chars_ok(raw, |c: char| no_nl(c)),
        conf_writable(st.conf),
    ensures
        parse_line_spec(st, raw, n) matches Ok(s2) ==> conf_writable(s2.conf),
{
    let l = trim(without_comment(raw));
    if l.len() > 0 {
        if l[0] == '[' {
            let ps = st.conf.peers.push(empty_peer());
            assert forall|j: int| 0 <= j < ps.len() implies peer_writable(#[trigger] ps[j]) by {
                if j < st.conf.peers.len() {
                    assert(ps[j] == st.conf.peers[j]);
                }
            }
        } else if kv_split(l) is Some {
            lemma_kv_split_clean(raw);
            let (k, v) = kv_split(l)->0;
            if v.len() > 0 {
                if st.section == 1 {
                    lemma_apply_interface_writable(st.conf.interface, k, v);
                } else if st.section == 2 && st.conf.peers.len() > 0 {
                    let last = st.conf.peers.len() - 1;
                    assert(peer_writable(st.conf.peers[last]));
                    lemma_apply_peer_writable(st.conf.peers[last], k, v);
                    let ps = st.conf.peers.update(
                        last,
                        apply_peer_key_spec(st.conf.peers[last], k, v),
                    );
                    assert forall|j: int| 0 <= j < ps.len() implies peer_writable(
                        #[trigger] ps[j],
                    ) by {
                        if j != last {
                            assert(ps[j] == st.conf.peers[j]);
                        }
                    }
                }
            }
        }
    }
}

proof fn lemma_lines_writable(st: ParseState, ls: Seq<Seq<char>>, f: nat)
    requires
        forall|j: int| 0 <= j < ls.len() ==> chars_ok(#[trigger] ls[j], |c: char| no_nl(c)),
        conf_writable(st.conf),
    ensures
        parse_lines_from(st, ls, f) matches Ok(s2) ==> conf_writable(s2.conf),
    decreases ls.len(),
{
    if ls.len() > 0 {
        let d = ls.drop_last();
        assert(forall|j: int| 0 <= j < d.len() ==> d[j] == ls[j]);
        lemma_lines_writable(st, d, f);
        assert(chars_ok(ls[ls.len() - 1], |c: char| no_nl(c)));
        match parse_lines_from(st, d, f) {
            Ok(s1) => {
                lemma_line_writable(s1, ls.last(), f + ls.len());
            },
            Err(_) => {},
        }
    }
}

proof fn lemma_split_no_sep_pieces(s: Seq<char>)
    ensures
        forall|j: int|
            0 <= j < split_char(s, '\n').len() ==> chars_ok(
                #[trigger] split_char(s, '\n')[j],
                |c: char| no_nl(c),
            ),
    decreases s.len(),
{
    lemma_split_char_nonempty(s, '\n');
    if s.len() > 0 {
        lemma_split_no_sep_pieces(s.drop_last());
        lemma_split_char_nonempty(s.drop_last(), '\n');
        let ps = split_char(s.drop_last(), '\n');
        if s.last() != '\n' {
            let l = ps.last().push(s.last());
            assert(chars_ok(ps[ps.len() - 1], |c: char| no_nl(c)));
            assert forall|m: int| 0 <= m < l.len() implies no_nl(#[trigger] l[m]) by {
                if m < l.len() - 1 {
                    assert(l[m] == ps[ps.len() - 1][m]);
                }
            }
        } else {
            assert(chars_ok(Seq::<char>::empty(), |c: char| no_nl(c)));
        }
    } else {
        assert(split_char(s, '\n')[0] =~= Seq::<char>::empty());
    }
}

proof fn lemma_lines_no_nl(t: Seq<char>)
    ensures
        forall|j: int|
            0 <= j < lines(t).len() ==> chars_ok(#[trigger] lines(t)[j], |c: char| no_nl(c)),
{
    lemma_split_no_sep_pieces(t);
    lemma_split_char_nonempty(t, '\n');
    let ps = split_char(t, '\n');
    assert forall|j: int| 0 <= j < lines(t).len() implies chars_ok(
        #[trigger] lines(t)[j],
        |c: char| no_nl(c),
    ) by {
        if j < ps.len() - 1 {
            assert(lines(t)[j] == strip_cr(ps[j]));
            assert forall|m: int| 0 <= m < strip_cr(ps[j]).len() implies no_nl(
                #[trigger] strip_cr(ps[j])[m],
            ) by {
                assert(strip_cr(ps[j])[m] == ps[j][m]);
            }
        } else {
            assert(lines(t)[j] == ps[ps.len() - 1]);
            assert forall|m: int| 0 <= m < ps.last().len() implies no_nl(
                #[trigger] ps.last()[m],
            ) by {
                assert(ps.last()[m] == ps[ps.len() - 1][m]);
            }
        }
    }
}

/// Every configuration that `parse_conf` returns can be written and read back.
pub proof fn lemma_parsed_is_writable(t: Seq<char>)
    ensures
        parse_conf_spec(t) matches Ok(c) ==> conf_writable(c),
{
    lemma_lines_no_nl(t);
    let st0 = initial_state();
    assert(conf_writable(st0.conf)) by {
        assert(empty_conf().interface.extras =~= Seq::<(Seq<char>, Seq<char>)>::empty());
    }
    lemma_lines_writable(st0, lines(t), 0);
}

/// Writing a parsed configuration and parsing it again gives the same configuration.
pub proof fn lemma_reparse_is_stable(t: Seq<char>)
    ensures
        parse_conf_spec(t) matches Ok(c) ==> parse_conf_spec(serialize_conf_spec(c)) == Ok::<
            ConfModel,
            Seq<char>,
        >(c),
{
    lemma_parsed_is_writable(t);
    if let Ok(c) = parse_conf_spec(t) {
        lemma_parse_serialize_roundtrip(c);
    }
}

/// The text handed to `wg setconf` carries the Peers and no interface settings: read
/// back, it gives an empty interface part and exactly these Peers, whenever each of
/// their values can stand in the format.
pub proof fn lemma_setconf_text_holds_only_peers(ps: Seq<PeerModel>)
    requires
        forall|j: int| 0 <= j < ps.len() ==> peer_writable(#[trigger] ps[j]),
    ensures
        parse_conf_spec(peers_text(ps)) == Ok::<ConfModel, Seq<char>>(
            ConfModel { interface: empty_interface(), peers: ps },
        ),
{
    lemma_peers_text(ps);
    let st0 = initial_state();
    if ps.len() == 0 {
        assert(all_plain(Seq::<Seq<char>>::empty()));
        lemma_lines_join(Seq::<Seq<char>>::empty());
        assert(peers_lines(ps) =~= Seq::<Seq<char>>::empty());
        assert(st0.conf =~= ConfModel { interface: empty_interface(), peers: ps });
    } else {
        lemma_peers_plain(ps);
        lemma_lines_join(peers_lines(ps));
        lemma_parse_peers_lines(st0, ps, 0);
        assert(ConfModel { peers: st0.conf.peers + ps, ..st0.conf } =~= ConfModel {
            interface: empty_interface(),
            peers: ps,
        });
    }
}

// ---------------------------------------------------------------------------
// Lines that hold several comma-separated values
// ---------------------------------------------------------------------------

/// The values written on one line, separated by `", "`.
pub open spec fn item_list(vs: Seq<Seq<char>>) -> Seq<char>
    decreases vs.len(),
{
    if vs.len() == 0 {
        Seq::empty()
    } else if vs.len() == 1 {
        vs[0]
    } else {
        item_list(vs.drop_last()) + seq![',', ' '] + vs.last()
    }
}

proof fn lemma_item_list_clean(vs: Seq<Seq<char>>)
    requires
        vs.len() > 0,
        all_items(vs),
    ensures
        clean_value(item_list(vs)),
        item_list(vs)[0] == vs[0][0],
    decreases vs.len(),
{
    if vs.len() == 1 {
        assert(clean_item(vs[0]));
    } else {
        let d = vs.drop_last();
        assert(forall|j: int| 0 <= j < d.len() ==> d[j] == vs[j]);
        lemma_item_list_clean(d);
        let a = item_list(d);
        let l = vs.last();
        assert(clean_item(vs[vs.len() - 1]));
        let r = a + seq![',', ' '] + l;
        assert(item_list(vs) == r);
        assert(r[0] == a[0]);
        assert(r.last() == l.last());
        assert forall|j: int| 0 <= j < r.len() implies #[trigger] r[j] != '\n' && !is_comment_char(
            r[j],
        ) by {
            if j < a.len() {
                assert(r[j] == a[j]);
            } else if j >= a.len() + 2 {
                assert(r[j] == l[j - a.len() - 2]);
            }
        }
    }
}

proof fn lemma_split_after_sep(a: Seq<char>, u: Seq<char>, sep: char)
    requires
        forall|j: int| 0 <= j < u.len() ==> #[trigger] u[j] != sep,
    ensures
        split_char(a + seq![sep] + u, sep) == split_char(a, sep).push(u),
{
    let b = a + seq![sep];
    assert(b.drop_last() =~= a);
    assert(b.last() == sep);
    assert(split_char(b, sep) == split_char(a, sep).push(Seq::<char>::empty()));
    lemma_split_append_plain(b, u, sep);
    assert(Seq::<char>::empty() + u =~= u);
    assert(split_char(a, sep).push(Seq::<char>::empty()).update(
        split_char(a, sep).len() as int,
        u,
    ) =~= split_char(a, sep).push(u));
}

proof fn lemma_comma_values_of_list(vs: Seq<Seq<char>>)
    requires
        vs.len() > 0,
        all_items(vs),
    ensures
        comma_values(item_list(vs)) == vs,
    decreases vs.len(),
{
    if vs.len() == 1 {
        assert(clean_item(vs[0]));
        lemma_comma_item(vs[0]);
        assert(seq![vs[0]] =~= vs);
    } else {
        let d = vs.drop_last();
        assert(forall|j: int| 0 <= j < d.len() ==> d[j] == vs[j]);
        lemma_comma_values_of_list(d);
        let l = vs.last();
        assert(clean_item(vs[vs.len() - 1]));
        let u = seq![' '] + l;
        assert(forall|j: int| 0 <= j < u.len() ==> #[trigger] u[j] != ',') by {
            assert forall|j: int| 0 <= j < u.len() implies #[trigger] u[j] != ',' by {
                if j > 0 {
                    assert(u[j] == l[j - 1]);
                }
            }
        }
        assert(item_list(d) + seq![',', ' '] + l =~= item_list(d) + seq![','] + u);
        lemma_split_after_sep(item_list(d), u, ',');
        let ps = split_char(item_list(d), ',').push(u);
        assert(ps.drop_last() =~= split_char(item_list(d), ','));
        assert(u.drop_first() =~= l);
        assert(is_ws(u[0]));
        assert(trim_start(u) == trim_start(l));
        lemma_trim_clean(l);
        assert(trim(u) == l);
        assert(d.push(l) =~= vs);
    }
}

proof fn lemma_one_key_section(
    h: Seq<char>,
    st: ParseState,
    k: Seq<char>,
    v: Seq<char>,
    next: ParseState,
)
    requires
        clean_key(k),
        clean_value(v),
        plain_line(h),
        parse_line_spec(initial_state(), h, 1) == Ok::<ParseState, Seq<char>>(st),
        st.section == 1 || (st.section == 2 && st.conf.peers.len() > 0),
        next == apply_in_section(st, k, v),
    ensures
        parse_conf_spec(join_lines(seq![h, key_line(k, v)])) == Ok::<ConfModel, Seq<char>>(
            next.conf,
        ),
{
    let kvs = seq![(k, v)];
    assert(kvs_clean(kvs));
    lemma_header_plain(h, kvs);
    assert(kv_lines(kvs) =~= seq![key_line(k, v)]);
    let ls = seq![h] + kv_lines(kvs);
    assert(ls =~= seq![h, key_line(k, v)]);
    lemma_lines_join(ls);
    let st0 = initial_state();
    lemma_parse_concat(st0, seq![h], seq![key_line(k, v)], 0);
    lemma_parse_one(st0, h, 0);
    lemma_parse_one(st, key_line(k, v), 1);
    lemma_kv_line(st, k, v, 2);
}

/// Every value of a comma-separated `Address` or `DNS` line is read, trimmed and in
/// order, and nothing else: an `[Interface]` section with one such line reads as an
/// interface whose addresses (or DNS servers) are exactly those values.
pub proof fn lemma_interface_lists_keep_every_value(vs: Seq<Seq<char>>)
    requires
        vs.len() > 0,
        all_items(vs),
    ensures
        parse_conf_spec(join_lines(seq!["[Interface]"@, key_line("Address"@, item_list(vs))]))
            == Ok::<ConfModel, Seq<char>>(
            ConfModel {
                interface: InterfaceModel { address: vs, ..empty_interface() },
                peers: Seq::empty(),
            },
        ),
        parse_conf_spec(join_lines(seq!["[Interface]"@, key_line("DNS"@, item_list(vs))]))
            == Ok::<ConfModel, Seq<char>>(
            ConfModel {
                interface: InterfaceModel { dns: vs, ..empty_interface() },
                peers: Seq::empty(),
            },
        ),
{
    reveal_strlit("[Interface]");
    lemma_keys();
    lemma_item_list_clean(vs);
    lemma_comma_values_of_list(vs);
    let st0 = initial_state();
    lemma_interface_header(st0, 1);
    let st = ParseState { conf: st0.conf, section: 1 };
    let v = item_list(vs);
    assert(plain_line("[Interface]"@));
    assert(Seq::<Seq<char>>::empty() + vs =~= vs);
    let na = apply_in_section(st, "Address"@, v);
    assert(na.conf =~= ConfModel {
        interface: InterfaceModel { address: vs, ..empty_interface() },
        peers: Seq::empty(),
    });
    lemma_one_key_section("[Interface]"@, st, "Address"@, v, na);
    let nd = apply_in_section(st, "DNS"@, v);
    assert(nd.conf =~= ConfModel {
        interface: InterfaceModel { dns: vs, ..empty_interface() },
        peers: Seq::empty(),
    });
    lemma_one_key_section("[Interface]"@, st, "DNS"@, v, nd);
}

/// Every value of a comma-separated `AllowedIPs` line is read, trimmed and in order:
/// a `[Peer]` section with one such line reads as one Peer whose allowed IPs are
/// exactly those values.
pub proof fn lemma_allowed_ips_keep_every_value(vs: Seq<Seq<char>>)
    requires
        vs.len() > 0,
        all_items(vs),
    ensures
        parse_conf_spec(join_lines(seq!["[Peer]"@, key_line("AllowedIPs"@, item_list(vs))]))
            == Ok::<ConfModel, Seq<char>>(
            ConfModel {
                interface: empty_interface(),
                peers: seq![PeerModel { allowed_ips: vs, ..empty_peer() }],
            },
        ),
{
    reveal_strlit("[Peer]");
    lemma_keys();
    lemma_item_list_clean(vs);
    lemma_comma_values_of_list(vs);
    let st0 = initial_state();
    lemma_peer_header(st0, 1);
    let st = ParseState {
        conf: ConfModel { peers: st0.conf.peers.push(empty_peer()), ..st0.conf },
        section: 2,
    };
    let v = item_list(vs);
    assert(plain_line("[Peer]"@));
    assert(Seq::<Seq<char>>::empty() + vs =~= vs);
    let n = apply_in_section(st, "AllowedIPs"@, v);
    assert(n.conf =~= ConfModel {
        interface: empty_interface(),
        peers: seq![PeerModel { allowed_ips: vs, ..empty_peer() }],
    });
    lemma_one_key_section("[Peer]"@, st, "AllowedIPs"@, v, n);
}

} // verus!
