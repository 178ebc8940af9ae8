//! The persistence layer: the registry as a structured text document.
//!
//! The document has a top-level `devices` table. An empty registry is the
//! single line `[devices]`; otherwise each device is one section
//!
//! ```text
//! [devices."NAME"]
//! user = "..."
//! ip_address = "..."
//! mac_address = "..."
//! name = "NAME"
//! ```
//!
//! in registry order, every line newline-terminated. Loading accepts blank
//! lines and bare `[devices]` lines anywhere between sections, requires the
//! four keys in the order written, and requires the section key to equal the
//! `name` field. A file that is absent is a distinct, actionable error; a
//! file whose contents do not parse is a malformed-content error.
//!
//! Reading and writing the file itself is the caller's business: `save`
//! yields the document and `load` takes the file's contents, or `None` when
//! the file does not exist.

use crate::device::{
    device_views, map_of, map_of_views, Device, DeviceRegistry, DeviceView,
};
use crate::errors::Error;
use crate::device::lemma_map_of_views;
use crate::text::{
    join_lines, join_terminated, lemma_sep_free_concat, lemma_split_join, sep_free, split_char,
    split_on, string_views,
};
use vstd::prelude::*;
use vstd::string::StringExecFns;

verus! {

broadcast use crate::text::group_string_views;

/// One `key = "value"` line.
pub open spec fn kv_line(key: Seq<char>, value: Seq<char>) -> Seq<char> {
    key + " = \""@ + value + "\""@
}

/// The section header naming one device.
pub open spec fn header_line(name: Seq<char>) -> Seq<char> {
    "[devices.\""@ + name + "\"]"@
}

/// The five lines one device is written as.
pub open spec fn device_lines(d: DeviceView) -> Seq<Seq<char>> {
    seq![
        header_line(d.name),
        kv_line("user"@, d.user),
        kv_line("ip_address"@, d.ip_address),
        kv_line("mac_address"@, d.mac_address),
        kv_line("name"@, d.name),
    ]
}

/// The lines of the document body: each device's lines, in registry order.
pub open spec fn emit_lines(s: Seq<Device>) -> Seq<Seq<char>>
    decreases s.len(),
{
    if s.len() == 0 {
        Seq::empty()
    } else {
        device_lines(s[0]@) + emit_lines(s.drop_first())
    }
}

/// The document's lines: a bare `[devices]` header for an empty registry,
/// else the devices' sections.
pub open spec fn doc_lines(s: Seq<Device>) -> Seq<Seq<char>> {
    if s.len() == 0 {
        seq!["[devices]"@]
    } else {
        emit_lines(s)
    }
}

/// The persisted form of a registry.
pub open spec fn save_spec(s: Seq<Device>) -> Seq<char> {
    join_terminated(doc_lines(s), '\n')
}

/// What a `key = "value"` line yields: the text between the fixed prefix
/// and the closing quote.
pub open spec fn parse_kv(line: Seq<char>, key: Seq<char>) -> Option<Seq<char>> {
    let pre = key + " = \""@;
    if line.len() >= pre.len() + 1 && line.take(pre.len() as int) == pre && line.last() == '"' {
        Some(line.subrange(pre.len() as int, line.len() - 1))
    } else {
        None
    }
}

/// The device name a section header carries.
pub open spec fn parse_header(line: Seq<char>) -> Option<Seq<char>> {
    let pre = "[devices.\""@;
    let suf = "\"]"@;
    if line.len() >= pre.len() + suf.len() && line.take(pre.len() as int) == pre && line.subrange(
        line.len() - suf.len(),
        line.len() as int,
    ) == suf {
        Some(line.subrange(pre.len() as int, line.len() - suf.len()))
    } else {
        None
    }
}

/// The devices a sequence of document lines yields, in order, or nothing
/// when some line does not parse. Blank lines and bare `[devices]` lines
/// are passed over; a section is five consecutive lines, its `name` field
/// equal to its section key.
pub open spec fn parse_lines(ls: Seq<Seq<char>>) -> Option<Seq<DeviceView>>
    decreases ls.len(),
{
    if ls.len() == 0 {
        Some(Seq::empty())
    } else if ls[0].len() == 0 || ls[0] == "[devices]"@ {
        parse_lines(ls.drop_first())
    } else {
        match parse_header(ls[0]) {
            None => None,
            Some(name) => if ls.len() < 5 {
                None
            } else {
                match parse_kv(ls[1], "user"@) {
                    None => None,
                    Some(u) => match parse_kv(ls[2], "ip_address"@) {
                        None => None,
                        Some(ip) => match parse_kv(ls[3], "mac_address"@) {
                            None => None,
                            Some(mac) => match parse_kv(ls[4], "name"@) {
                                None => None,
                                Some(nm) => if nm != name {
                                    None
                                } else {
                                    match parse_lines(ls.skip(5)) {
                                        None => None,
                                        Some(rest) => Some(
                                            seq![
                                                (DeviceView {
                                                    user: u,
                                                    ip_address: ip,
                                                    mac_address: mac,
                                                    name: nm,
                                                }),
                                            ] + rest,
                                        ),
                                    }
                                },
                            },
                        },
                    },
                }
            },
        }
    }
}

/// The devices the document text yields, or nothing when it is malformed.
pub open spec fn load_spec(text: Seq<char>) -> Option<Seq<DeviceView>> {
    parse_lines(split_on(text, '\n'))
}

fn parse_kv_line(line: &str, key: &str) -> (r: Option<String>)
    ensures
        match r {
            Some(v) => parse_kv(line@, key@) == Some(v@),
            None => parse_kv(line@, key@) is None,
        },
{
    let mid = " = \"";
    proof {
        reveal_strlit(" = \"");
    }
    let klen = key.unicode_len();
    let len = line.unicode_len();
    let ghost pre = key@ + " = \""@;
    if len < 5 || len - 5 < klen {
        return None;
    }
    let mut i: usize = 0;
    while i < klen
        invariant
            klen == key@.len(),
            len == line@.len(),
            len >= klen + 5,
            i <= klen,
            pre == key@ + " = \""@,
            pre.len() == klen + 4,
            forall|j: int| 0 <= j < i ==> line@[j] == key@[j],
        decreases klen - i,
    {
        if line.get_char(i) != key.get_char(i) {
            proof {
                assert(line@.take(pre.len() as int)[i as int] == line@[i as int]);
                assert(pre[i as int] == key@[i as int]);
            }
            return None;
        }
        i += 1;
    }
    let mut m: usize = 0;
    while m < 4
        invariant
            klen == key@.len(),
            len == line@.len(),
            len >= klen + 5,
            m <= 4,
            pre == key@ + " = \""@,
            pre.len() == klen + 4,
            mid@ == " = \""@,
            mid@.len() == 4,
            forall|j: int| 0 <= j < m ==> line@[klen + j] == mid@[j],
        decreases 4 - m,
    {
        if line.get_char(klen + m) != mid.get_char(m) {
            proof {
                assert(line@.take(pre.len() as int)[klen + m] == line@[klen + m]);
                assert(pre[klen + m] == mid@[m as int]);
            }
            return None;
        }
        m += 1;
    }
    if line.get_char(len - 1) != '"' {
        return None;
    }
    proof {
        assert(line@.take(pre.len() as int) =~= pre);
    }
    Some(line.substring_char(klen + 4, len - 1).to_owned())
}

fn parse_header_line(line: &str) -> (r: Option<String>)
    ensures
        match r {
            Some(nm) => parse_header(line@) == Some(nm@),
            None => parse_header(line@) is None,
        },
{
    let pre = "[devices.\"";
    proof {
        reveal_strlit("[devices.\"");
        reveal_strlit("\"]");
    }
    let plen = pre.unicode_len();
    let len = line.unicode_len();
    let ghost suf = "\"]"@;
    proof {
        assert(suf.len() == 2 && suf[0] == '"' && suf[1] == ']');
    }
    if len < plen + 2 {
        return None;
    }
    let mut i: usize = 0;
    while i < plen
        invariant
            pre@ == "[devices.\""@,
            plen == pre@.len(),
            len == line@.len(),
            len >= plen + 2,
            i <= plen,
            forall|j: int| 0 <= j < i ==> line@[j] == pre@[j],
        decreases plen - i,
    {
        if line.get_char(i) != pre.get_char(i) {
            proof {
                assert(line@.take(plen as int)[i as int] == line@[i as int]);
            }
            return None;
        }
        i += 1;
    }
    proof {
        assert(line@.take(plen as int) =~= pre@);
    }
    if line.get_char(len - 2) != '"' || line.get_char(len - 1) != ']' {
        proof {
            assert(line@.subrange(len - 2, len as int)[0] == line@[len - 2]);
            assert(line@.subrange(len - 2, len as int)[1] == line@[len - 1]);
        }
        return None;
    }
    proof {
        assert(line@.subrange(len - 2, len as int) =~= suf);
    }
    Some(line.substring_char(plen, len - 2).to_owned())
}

fn kv_string(key: &str, value: &str) -> (r: String)
    ensures
        r@ == kv_line(key@, value@),
{
    let mut s: String = key.to_owned();
    s.append(" = \"");
    s.append(value);
    s.append("\"");
    s
}

fn header_string(name: &str) -> (r: String)
    ensures
        r@ == header_line(name@),
{
    let mut s: String = "[devices.\"".to_owned();
    s.append(name);
    s.append("\"]");
    s
}

impl DeviceRegistry {
    /// The registry serialized as the persisted document. The document is
    /// written whole on every save; nothing is updated in place.
    pub fn save(&self) -> (r: String)
        ensures
            r@ == save_spec(self.devices@),
    {
        let mut lines: Vec<String> = Vec::new();
        if self.devices.len() == 0 {
            lines.push("[devices]".to_owned());
            proof {
                assert(string_views(lines@) =~= doc_lines(self.devices@));
            }
        } else {
            let n = self.devices.len();
            let mut i: usize = 0;
            proof {
                assert(self.devices@.skip(0) =~= self.devices@);
                assert(string_views(lines@) =~= Seq::<Seq<char>>::empty());
            }
            while i < n
                invariant
                    n == self.devices@.len(),
                    0 < n,
                    i <= n,
                    string_views(lines@) + emit_lines(self.devices@.skip(i as int)) == emit_lines(
                        self.devices@,
                    ),
                decreases n - i,
            {
                let ghost l0 = lines@;
                let ghost u = self.devices@.skip(i as int);
                proof {
                    assert(u[0] == self.devices@[i as int]);
                    assert(u.drop_first() =~= self.devices@.skip(i as int + 1));
                }
                let d = &self.devices[i];
                lines.push(header_string(d.name.as_str()));
                lines.push(kv_string("user", d.user.as_str()));
                lines.push(kv_string("ip_address", d.ip_address.as_str()));
                lines.push(kv_string("mac_address", d.mac_address.as_str()));
                lines.push(kv_string("name", d.name.as_str()));
                proof {
                    assert(string_views(lines@) =~= string_views(l0) + device_lines(u[0]@));
                    assert(string_views(l0) + (device_lines(u[0]@) + emit_lines(
                        self.devices@.skip(i as int + 1),
                    )) =~= (string_views(l0) + device_lines(u[0]@)) + emit_lines(
                        self.devices@.skip(i as int + 1),
                    ));
                }
                i += 1;
            }
            proof {
                assert(self.devices@.skip(n as int) =~= Seq::<Device>::empty());
                assert(string_views(lines@) =~= string_views(lines@) + emit_lines(
                    self.devices@.skip(n as int),
                ));
            }
        }
        join_lines(&lines)
    }

    /// Loads a registry from the contents of the persisted file, handed in
    /// as `Some(text)`, or from `None` when the file does not exist. The two
    /// failures are distinct: an absent file is the configuration-missing
    /// error that asks the user to initialize; contents that do not parse
    /// are the malformed-content error.
    pub fn load(content: Option<&str>) -> (r: Result<DeviceRegistry, Error>)
        ensures
            match r {
                Ok(reg) => {
                    &&& content matches Some(text)
                    &&& load_spec(text@) matches Some(ds)
                    &&& reg.wf()
                    &&& reg@ == map_of_views(ds)
                },
                Err(e) => match e {
                    Error::ConfigMissing => content is None,
                    Error::ConfigMalformed => content matches Some(text) && load_spec(text@)
                        is None,
                    _ => false,
                },
            },
    {
        let text = match content {
            Some(t) => t,
            None => {
                return Err(Error::ConfigMissing);
            },
        };
        let lines = split_char(text, '\n');
        let ghost lv = string_views(lines@);
        let n = lines.len();
        let bare: String = "[devices]".to_owned();
        let mut reg = DeviceRegistry { devices: Vec::new() };
        let ghost mut pv: Seq<DeviceView> = Seq::empty();
        let mut i: usize = 0;
        proof {
            assert(lv.skip(0) =~= lv);
            assert(pv + parse_lines(lv)->Some_0 =~= parse_lines(lv)->Some_0);
        }
        while i < n
            invariant
                content == Some(text),
                n == lines@.len(),
                lv == string_views(lines@),
                lv == split_on(text@, '\n'),
                bare@ == "[devices]"@,
                i <= n,
                reg.wf(),
                reg@ == map_of_views(pv),
                parse_lines(lv) == (match parse_lines(lv.skip(i as int)) {
                    Some(rest) => Some(pv + rest),
                    None => None::<Seq<DeviceView>>,
                }),
            decreases n - i,
        {
            let ghost u = lv.skip(i as int);
            proof {
                assert(u[0] == lv[i as int]);
                assert(u.drop_first() =~= lv.skip(i as int + 1));
            }
            let skip_line = lines[i].as_str().is_empty() || lines[i] == bare;
            if skip_line {
                i += 1;
            } else {
                proof {
                    assert(u[0].len() != 0 && u[0] != "[devices]"@);
                }
                let name = match parse_header_line(lines[i].as_str()) {
                    Some(nm) => nm,
                    None => {
                        proof {
                            assert(parse_lines(u) is None);
                        }
                        return Err(Error::ConfigMalformed);
                    },
                };
                if n - i < 5 {
                    proof {
                        assert(u.len() < 5);
                        assert(parse_lines(u) is None);
                    }
                    return Err(Error::ConfigMalformed);
                }
                proof {
                    assert(u[1] == lv[i + 1]);
                    assert(u[2] == lv[i + 2]);
                    assert(u[3] == lv[i + 3]);
                    assert(u[4] == lv[i + 4]);
                }
                let user = match parse_kv_line(lines[i + 1].as_str(), "user") {
                    Some(v) => v,
                    None => {
                        proof {
                            assert(parse_lines(u) is None);
                        }
                        return Err(Error::ConfigMalformed);
                    },
                };
                let ip = match parse_kv_line(lines[i + 2].as_str(), "ip_address") {
                    Some(v) => v,
                    None => {
                        proof {
                            assert(parse_lines(u) is None);
                        }
                        return Err(Error::ConfigMalformed);
                    },
                };
                let mac = match parse_kv_line(lines[i + 3].as_str(), "mac_address") {
                    Some(v) => v,
                    None => {
                        proof {
                            assert(parse_lines(u) is None);
                        }
                        return Err(Error::ConfigMalformed);
                    },
                };
                let nm = match parse_kv_line(lines[i + 4].as_str(), "name") {
                    Some(v) => v,
                    None => {
                        proof {
                            assert(parse_lines(u) is None);
                        }
                        return Err(Error::ConfigMalformed);
                    },
                };
                if !(nm == name) {
                    proof {
                        assert(parse_lines(u) is None);
                    }
                    return Err(Error::ConfigMalformed);
                }
                let device = Device::new(user, ip, mac, nm);
                let ghost dv = device@;
                reg.add_device(device);
                proof {
                    assert(u.skip(5) =~= lv.skip(i as int + 5));
                    assert(pv.push(dv).drop_last() =~= pv);
                    pv = pv.push(dv);
                    let pr = parse_lines(lv.skip(i as int + 5));
                    if pr is Some {
                        let rest = pr->Some_0;
                        assert(parse_lines(u) == Some(seq![dv] + rest));
                        assert(pv.drop_last() + (seq![dv] + rest) =~= pv + rest);
                    }
                }
                i += 5;
            }
        }
        proof {
            assert(lv.skip(n as int) =~= Seq::<Seq<char>>::empty());
            assert(pv + Seq::<DeviceView>::empty() =~= pv);
        }
        Ok(reg)
    }
}

/// A field value the document round-trips literally: free of newlines,
/// which are the one character the line-oriented format cannot carry.
pub open spec fn plain_text(s: Seq<char>) -> bool {
    sep_free(s, '\n')
}

/// A device whose four fields are plain.
pub open spec fn plain_device(d: DeviceView) -> bool {
    plain_text(d.user) && plain_text(d.ip_address) && plain_text(d.mac_address) && plain_text(
        d.name,
    )
}

/// The format's fixed pieces contain no newline.
proof fn lemma_literals_plain()
    ensures
        sep_free("[devices]"@, '\n'),
        sep_free("[devices.\""@, '\n'),
        sep_free("\"]"@, '\n'),
        sep_free(" = \""@, '\n'),
        sep_free("\""@, '\n'),
        sep_free("user"@, '\n'),
        sep_free("ip_address"@, '\n'),
        sep_free("mac_address"@, '\n'),
        sep_free("name"@, '\n'),
{
    reveal_strlit("[devices]");
    reveal_strlit("[devices.\"");
    reveal_strlit("\"]");
    reveal_strlit(" = \"");
    reveal_strlit("\"");
    reveal_strlit("user");
    reveal_strlit("ip_address");
    reveal_strlit("mac_address");
    reveal_strlit("name");
}

/// A key/value line of plain pieces is itself plain.
proof fn lemma_kv_line_plain(key: Seq<char>, value: Seq<char>)
    requires
        sep_free(key, '\n'),
        sep_free(value, '\n'),
    ensures
        sep_free(kv_line(key, value), '\n'),
{
    lemma_literals_plain();
    lemma_sep_free_concat(key, " = \""@, '\n');
    lemma_sep_free_concat(key + " = \""@, value, '\n');
    lemma_sep_free_concat(key + " = \""@ + value, "\""@, '\n');
}

/// A header line for a plain name is itself plain.
proof fn lemma_header_line_plain(name: Seq<char>)
    requires
        sep_free(name, '\n'),
    ensures
        sep_free(header_line(name), '\n'),
{
    lemma_literals_plain();
    lemma_sep_free_concat("[devices.\""@, name, '\n');
    lemma_sep_free_concat("[devices.\""@ + name, "\"]"@, '\n');
}

/// Every line a plain device is written as is plain.
proof fn lemma_device_lines_plain(d: DeviceView)
    requires
        plain_device(d),
    ensures
        forall|i: int|
            0 <= i < device_lines(d).len() ==> sep_free(#[trigger] device_lines(d)[i], '\n'),
{
    lemma_literals_plain();
    lemma_header_line_plain(d.name);
    lemma_kv_line_plain("user"@, d.user);
    lemma_kv_line_plain("ip_address"@, d.ip_address);
    lemma_kv_line_plain("mac_address"@, d.mac_address);
    lemma_kv_line_plain("name"@, d.name);
}

/// Every line of the document of plain devices is plain.
proof fn lemma_doc_lines_plain(s: Seq<Device>)
    requires
        forall|i: int| 0 <= i < s.len() ==> plain_device((#[trigger] s[i])@),
    ensures
        forall|i: int| 0 <= i < doc_lines(s).len() ==> sep_free(#[trigger] doc_lines(s)[i], '\n'),
    decreases s.len(),
{
    lemma_literals_plain();
    if s.len() > 0 {
        let t = s.drop_first();
        assert forall|i: int| 0 <= i < t.len() implies plain_device((#[trigger] t[i])@) by {
            assert(t[i] == s[i + 1]);
        }
        lemma_doc_lines_plain(t);
        lemma_device_lines_plain(s[0]@);
        let dl = device_lines(s[0]@);
        assert forall|i: int|
            0 <= i < emit_lines(s).len() implies sep_free(#[trigger] emit_lines(s)[i], '\n') by {
            if i < dl.len() {
                assert(emit_lines(s)[i] == dl[i]);
            } else {
                assert(emit_lines(s)[i] == emit_lines(t)[i - dl.len()]);
                if t.len() == 0 {
                } else {
                    assert(emit_lines(t) == doc_lines(t));
                }
            }
        }
    }
}

/// Parsing inverts one key/value line exactly.
proof fn lemma_parse_kv_inverts(key: Seq<char>, value: Seq<char>)
    ensures
        parse_kv(kv_line(key, value), key) == Some(value),
{
    reveal_strlit(" = \"");
    reveal_strlit("\"");
    let line = kv_line(key, value);
    let pre = key + " = \""@;
    assert(line.len() == key.len() + 4 + value.len() + 1);
    assert(line.take(pre.len() as int) =~= pre);
    assert(line.last() == '"');
    assert(line.subrange(pre.len() as int, line.len() - 1) =~= value);
}

/// Parsing inverts one header line exactly.
proof fn lemma_parse_header_inverts(name: Seq<char>)
    ensures
        parse_header(header_line(name)) == Some(name),
        header_line(name).len() == name.len() + 12,
{
    reveal_strlit("[devices.\"");
    reveal_strlit("\"]");
    let line = header_line(name);
    assert(line.len() == name.len() + 12);
    assert(line.take(10) =~= "[devices.\""@);
    assert(line.subrange(line.len() - 2, line.len() as int) =~= "\"]"@);
    assert(line.subrange(10, line.len() - 2) =~= name);
}

/// Parsing inverts emission: the body lines of `s`, followed by any tail,
/// parse to the devices of `s` followed by whatever the tail parses to.
proof fn lemma_parse_emit(s: Seq<Device>, tail: Seq<Seq<char>>)
    ensures
        parse_lines(emit_lines(s) + tail) == (match parse_lines(tail) {
            Some(rest) => Some(device_views(s) + rest),
            None => None::<Seq<DeviceView>>,
        }),
    decreases s.len(),
{
    broadcast use crate::device::group_device_views;

    if s.len() == 0 {
        assert(emit_lines(s) + tail =~= tail);
        if parse_lines(tail) is Some {
            assert(device_views(s) + parse_lines(tail)->Some_0 =~= parse_lines(tail)->Some_0);
        }
    } else {
        let d = s[0];
        let t = s.drop_first();
        lemma_parse_emit(t, tail);
        let dl = device_lines(d@);
        let ls = emit_lines(s) + tail;
        assert(ls =~= dl + (emit_lines(t) + tail));
        let inner = emit_lines(t) + tail;
        assert(ls[0] == header_line(d.name@));
        assert(ls[1] == kv_line("user"@, d.user@));
        assert(ls[2] == kv_line("ip_address"@, d.ip_address@));
        assert(ls[3] == kv_line("mac_address"@, d.mac_address@));
        assert(ls[4] == kv_line("name"@, d.name@));
        lemma_parse_header_inverts(d.name@);
        lemma_parse_kv_inverts("user"@, d.user@);
        lemma_parse_kv_inverts("ip_address"@, d.ip_address@);
        lemma_parse_kv_inverts("mac_address"@, d.mac_address@);
        lemma_parse_kv_inverts("name"@, d.name@);
        reveal_strlit("[devices]");
        assert(ls[0].len() != 0);
        assert(ls[0] != "[devices]"@) by {
            assert(ls[0].len() >= 12 && "[devices]"@.len() == 9);
        }
        assert(ls.len() >= 5);
        assert(ls.skip(5) =~= inner);
        let dv = (DeviceView {
            user: d.user@,
            ip_address: d.ip_address@,
            mac_address: d.mac_address@,
            name: d.name@,
        });
        assert(dv =~= d@);
        if parse_lines(tail) is Some {
            let r0 = parse_lines(tail)->Some_0;
            assert(parse_lines(inner) == Some(device_views(t) + r0));
            assert(parse_lines(ls) == Some(seq![dv] + (device_views(t) + r0)));
            assert(seq![d@] + (device_views(t) + r0) =~= device_views(s) + r0);
        } else {
            assert(parse_lines(inner) is None);
            assert(parse_lines(ls) is None);
        }
    }
}

/// The round trip of persistence: saving a registry and loading what was
/// saved succeeds and yields the same mapping of device names to device
/// records. It holds for every well-formed registry whose fields carry no
/// newline — the one character the line-oriented document cannot hold.
pub proof fn lemma_save_load_round_trip(reg: DeviceRegistry)
    requires
        reg.wf(),
        forall|i: int| 0 <= i < reg.devices@.len() ==> plain_device((#[trigger] reg.devices@[i])@),
    ensures
        load_spec(save_spec(reg.devices@)) matches Some(ds) && map_of_views(ds) == reg@,
{
    let s = reg.devices@;
    lemma_doc_lines_plain(s);
    lemma_split_join(doc_lines(s), '\n');
    let empty_line = Seq::<char>::empty();
    let pieces = split_on(save_spec(s), '\n');
    assert(pieces == doc_lines(s).push(empty_line));
    reveal_strlit("[devices]");
    if s.len() == 0 {
        assert(pieces =~= seq!["[devices]"@, empty_line]);
        assert(pieces[0] == "[devices]"@);
        assert(pieces.drop_first() =~= seq![empty_line]);
        assert(seq![empty_line].drop_first() =~= Seq::<Seq<char>>::empty());
        assert(parse_lines(Seq::<Seq<char>>::empty()) == Some(Seq::<DeviceView>::empty()));
        assert(parse_lines(seq![empty_line]) == Some(Seq::<DeviceView>::empty()));
        assert(parse_lines(pieces) == Some(Seq::<DeviceView>::empty()));
        assert(map_of_views(Seq::<DeviceView>::empty()) =~= map_of(s));
    } else {
        assert(pieces =~= emit_lines(s) + seq![empty_line]);
        lemma_parse_emit(s, seq![empty_line]);
        assert(seq![empty_line].drop_first() =~= Seq::<Seq<char>>::empty());
        assert(parse_lines(Seq::<Seq<char>>::empty()) == Some(Seq::<DeviceView>::empty()));
        assert(parse_lines(seq![empty_line]) == Some(Seq::<DeviceView>::empty()));
        assert(load_spec(save_spec(s)) == Some(device_views(s) + Seq::<DeviceView>::empty()));
        assert(device_views(s) + Seq::<DeviceView>::empty() =~= device_views(s));
        lemma_map_of_views(s);
    }
}

} // verus!
