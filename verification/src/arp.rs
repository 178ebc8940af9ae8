//! The neighbor-table and sweep-output parsers.
//!
//! A neighbor-table line is whitespace-tokenized positionally: token 0 is
//! the IP address and token 4 the MAC address; the tokens between them are
//! link-layer metadata that must be present but are otherwise ignored. A
//! line with fewer than six tokens, an invalid IP or an invalid MAC is
//! rejected; the table parser drops rejected lines silently and never fails
//! as a whole.
//!
//! The sweep-output parser is independent: it extracts the parenthesized
//! address from each line that starts with the sweep tool's report prefix.
//! Its result is informational only and is never joined against the
//! neighbor table.

use crate::addr::{check_ip, check_mac, valid_ip, valid_mac};
use crate::device::{Device, DeviceView};
use crate::text::{
    lemma_split_on_at, lemma_split_on_len, split_char, split_on, string_views, tokenize, tokens,
};
use vstd::prelude::*;

verus! {

broadcast use crate::text::group_string_views;

/// One observed neighbor: an IP address and the MAC address it answered
/// from. A record produced by the parser carries a valid IP in `ip` and a
/// six-group MAC in `mac`.
#[derive(Debug)]
pub struct Neighbor {
    pub ip: String,
    pub mac: String,
}

/// The mathematical value of a `Neighbor`: both fields as character
/// sequences.
#[verifier::ext_equal]
pub ghost struct NeighborView {
    pub ip: Seq<char>,
    pub mac: Seq<char>,
}

impl View for Neighbor {
    type V = NeighborView;

    open spec fn view(&self) -> NeighborView {
        NeighborView { ip: self.ip@, mac: self.mac@ }
    }
}

/// The values of a sequence of neighbors, in table order.
pub open spec fn neighbor_views(s: Seq<Neighbor>) -> Seq<NeighborView> {
    s.map_values(|n: Neighbor| n@)
}

pub broadcast proof fn lemma_neighbor_views_len(s: Seq<Neighbor>)
    ensures
        #[trigger] neighbor_views(s).len() == s.len(),
{
}

pub broadcast proof fn lemma_neighbor_views_index(s: Seq<Neighbor>, i: int)
    requires
        0 <= i < s.len(),
    ensures
        #[trigger] neighbor_views(s)[i] == s[i]@,
{
}

/// The two facts every reader of `neighbor_views` needs: its length and its
/// elements.
pub broadcast group group_neighbor_views {
    lemma_neighbor_views_len,
    lemma_neighbor_views_index,
}

/// Why one neighbor-table line was rejected. The table parser drops a
/// rejected line silently; the reason never travels further.
#[derive(Debug, Clone, Copy, PartialEq, Eq, Structural)]
pub enum LineError {
    /// The line is empty.
    MissingIp,
    /// Only the IP token is present.
    MissingDevice,
    /// The interface token is absent.
    MissingInterface,
    /// The link-layer-address marker is absent.
    MissingLladdr,
    /// The MAC token is absent.
    MissingMac,
    /// The reachability-state token is absent.
    MissingStatus,
    /// Token 0 is not a valid IPv4 or IPv6 address.
    InvalidIp,
    /// Token 4 does not have six groups of one or two hexadecimal digits.
    InvalidMac,
}

/// What one neighbor-table line yields: the record made of token 0 and
/// token 4, or the first reason the line is rejected — a missing token,
/// an invalid IP, or an invalid MAC, in that order.
pub open spec fn spec_parse_line(line: Seq<char>) -> Result<NeighborView, LineError> {
    let ts = tokens(line);
    if ts.len() == 0 {
        Err(LineError::MissingIp)
    } else if ts.len() == 1 {
        Err(LineError::MissingDevice)
    } else if ts.len() == 2 {
        Err(LineError::MissingInterface)
    } else if ts.len() == 3 {
        Err(LineError::MissingLladdr)
    } else if ts.len() == 4 {
        Err(LineError::MissingMac)
    } else if ts.len() == 5 {
        Err(LineError::MissingStatus)
    } else if !valid_ip(ts[0]) {
        Err(LineError::InvalidIp)
    } else if !valid_mac(ts[4]) {
        Err(LineError::InvalidMac)
    } else {
        Ok(NeighborView { ip: ts[0], mac: ts[4] })
    }
}

/// The record invariant: every record the parser yields carries a valid IP
/// address and a six-group MAC.
pub proof fn lemma_parsed_record_valid(line: Seq<char>)
    requires
        spec_parse_line(line) is Ok,
    ensures
        valid_ip(spec_parse_line(line)->Ok_0.ip),
        valid_mac(spec_parse_line(line)->Ok_0.mac),
{
}

impl Neighbor {
    /// Parses one neighbor-table line. A line with six or more whitespace
    /// tokens, a valid IP in token 0 and a six-group MAC in token 4 yields
    /// exactly the record of those two tokens; any other line is rejected
    /// with the reason.
    pub fn new(line: &str) -> (r: Result<Neighbor, LineError>)
        ensures
            match r {
                Ok(nb) => spec_parse_line(line@) == Ok::<NeighborView, LineError>(nb@),
                Err(e) => spec_parse_line(line@) == Err::<NeighborView, LineError>(e),
            },
    {
        let ts = tokenize(line);
        if ts.len() == 0 {
            return Err(LineError::MissingIp);
        }
        if ts.len() == 1 {
            return Err(LineError::MissingDevice);
        }
        if ts.len() == 2 {
            return Err(LineError::MissingInterface);
        }
        if ts.len() == 3 {
            return Err(LineError::MissingLladdr);
        }
        if ts.len() == 4 {
            return Err(LineError::MissingMac);
        }
        if ts.len() == 5 {
            return Err(LineError::MissingStatus);
        }
        if !check_ip(ts[0].as_str()) {
            return Err(LineError::InvalidIp);
        }
        if !check_mac(ts[4].as_str()) {
            return Err(LineError::InvalidMac);
        }
        Ok(Neighbor { ip: ts[0].clone(), mac: ts[4].clone() })
    }

    /// Turns this neighbor into a registry device under the given user and
    /// name, keeping its observed IP and MAC.
    pub fn to_device(&self, user: String, name: String) -> (r: Device)
        ensures
            r@ == (DeviceView { user: user@, ip_address: self.ip@, mac_address: self.mac@, name: name@ }),
    {
        Device::new(user, self.ip.clone(), self.mac.clone(), name)
    }
}

/// The records of a sequence of lines, in order: one per line that parses,
/// none for a line that is rejected.
pub open spec fn table_records(lines: Seq<Seq<char>>) -> Seq<NeighborView>
    decreases lines.len(),
{
    if lines.len() == 0 {
        Seq::empty()
    } else {
        let rest = table_records(lines.drop_first());
        match spec_parse_line(lines[0]) {
            Ok(nv) => seq![nv] + rest,
            Err(_) => rest,
        }
    }
}

/// The records of a whole neighbor-table output, line by line.
pub open spec fn spec_parse_table(text: Seq<char>) -> Seq<NeighborView> {
    table_records(split_on(text, '\n'))
}

/// Parses the neighbor-table tool's whole output: one record per line that
/// parses, in table order; malformed lines — headers, FAILED or INCOMPLETE
/// entries, anything short of six tokens — are dropped silently and never
/// abort the scan.
pub fn parse_neighbor_table(text: &str) -> (r: Vec<Neighbor>)
    ensures
        neighbor_views(r@) == spec_parse_table(text@),
{
    broadcast use group_neighbor_views;

    let lines = split_char(text, '\n');
    let ghost lv = string_views(lines@);
    let mut r: Vec<Neighbor> = Vec::new();
    let n = lines.len();
    let mut i: usize = 0;
    proof {
        assert(lv.skip(0) =~= lv);
        assert(neighbor_views(r@) =~= Seq::<NeighborView>::empty());
    }
    while i < n
        invariant
            n == lines@.len(),
            lv == string_views(lines@),
            lv == split_on(text@, '\n'),
            i <= n,
            neighbor_views(r@) + table_records(lv.skip(i as int)) == spec_parse_table(text@),
        decreases n - i,
    {
        broadcast use group_neighbor_views;

        let ghost u = lv.skip(i as int);
        proof {
            assert(u[0] == lv[i as int]);
            assert(u.drop_first() =~= lv.skip(i as int + 1));
        }
        let ghost r0 = r@;
        match Neighbor::new(lines[i].as_str()) {
            Ok(nb) => {
                r.push(nb);
                proof {
                    assert(neighbor_views(r@) =~= neighbor_views(r0) + seq![nb@]);
                    assert(neighbor_views(r0) + (seq![nb@] + table_records(
                        lv.skip(i as int + 1),
                    )) =~= (neighbor_views(r0) + seq![nb@]) + table_records(lv.skip(i as int + 1)));
                }
            },
            Err(_) => {},
        }
        i += 1;
    }
    proof {
        assert(lv.skip(n as int) =~= Seq::<Seq<char>>::empty());
        assert(neighbor_views(r@) =~= neighbor_views(r@) + table_records(lv.skip(n as int)));
    }
    r
}

/// The fixed prefix of an interesting sweep-report line.
pub open spec fn nmap_prefix() -> Seq<char> {
    "Nmap scan report for "@
}

/// What one line of sweep output yields: for a line that starts with the
/// report prefix and holds a parenthesized address, the text between the
/// first '(' and the next ')' after it; nothing otherwise.
pub open spec fn spec_nmap_line_ip(line: Seq<char>) -> Option<Seq<char>> {
    if line.len() >= nmap_prefix().len() && line.take(nmap_prefix().len() as int)
        == nmap_prefix() {
        let p = split_on(line, '(');
        if p.len() < 2 {
            None
        } else {
            let q = split_on(line.skip(p[0].len() as int + 1), ')');
            if q.len() < 2 {
                None
            } else {
                Some(q[0])
            }
        }
    } else {
        None
    }
}

/// Extracts the parenthesized address from one line of sweep output, when
/// the line starts with the report prefix; `None` for every other line.
pub fn nmap_line_ip(line: &str) -> (r: Option<String>)
    ensures
        match r {
            Some(ip) => spec_nmap_line_ip(line@) == Some(ip@),
            None => spec_nmap_line_ip(line@) is None,
        },
{
    let pref = "Nmap scan report for ";
    proof {
        reveal_strlit("Nmap scan report for ");
    }
    let plen = pref.unicode_len();
    let len = line.unicode_len();
    if len < plen {
        return None;
    }
    let mut i: usize = 0;
    while i < plen
        invariant
            pref@ == nmap_prefix(),
            plen == pref@.len(),
            len == line@.len(),
            plen <= len,
            i <= plen,
            forall|j: int| 0 <= j < i ==> line@[j] == nmap_prefix()[j],
        decreases plen - i,
    {
        if line.get_char(i) != pref.get_char(i) {
            proof {
                assert(line@.take(plen as int)[i as int] == line@[i as int]);
            }
            return None;
        }
        i += 1;
    }
    proof {
        assert(line@.take(plen as int) =~= nmap_prefix());
    }
    let mut j: usize = 0;
    while j < len && line.get_char(j) != '('
        invariant
            len == line@.len(),
            j <= len,
            forall|m: int| 0 <= m < j ==> line@[m] != '(',
        decreases len - j,
    {
        j += 1;
    }
    if j == len {
        proof {
            lemma_split_on_at(line@, '(', len as int);
        }
        return None;
    }
    proof {
        lemma_split_on_at(line@, '(', j as int);
        lemma_split_on_len(line@.skip(j as int + 1), '(');
        assert(split_on(line@, '(')[0] == line@.take(j as int));
    }
    let mut k = j + 1;
    while k < len && line.get_char(k) != ')'
        invariant
            len == line@.len(),
            j + 1 <= k <= len,
            forall|m: int| j + 1 <= m < k ==> line@[m] != ')',
        decreases len - k,
    {
        k += 1;
    }
    let ghost after = line@.skip(j as int + 1);
    if k == len {
        proof {
            assert forall|m: int| 0 <= m < after.len() implies #[trigger] after[m] != ')' by {
                assert(after[m] == line@[j + 1 + m]);
            }
            lemma_split_on_at(after, ')', after.len() as int);
        }
        return None;
    }
    proof {
        assert forall|m: int| 0 <= m < k - j - 1 implies #[trigger] after[m] != ')' by {
            assert(after[m] == line@[j + 1 + m]);
        }
        assert(after[k - j - 1] == line@[k as int]);
        lemma_split_on_at(after, ')', k as int - j as int - 1);
        lemma_split_on_len(after.skip(k as int - j as int), ')');
        assert(after.take(k as int - j as int - 1) =~= line@.subrange(j as int + 1, k as int));
    }
    Some(line.substring_char(j + 1, k).to_owned())
}

/// The addresses of a sequence of sweep-output lines, in order.
pub open spec fn sweep_records(lines: Seq<Seq<char>>) -> Seq<Seq<char>>
    decreases lines.len(),
{
    if lines.len() == 0 {
        Seq::empty()
    } else {
        let rest = sweep_records(lines.drop_first());
        match spec_nmap_line_ip(lines[0]) {
            Some(ip) => seq![ip] + rest,
            None => rest,
        }
    }
}

/// The addresses of a whole sweep output, line by line.
pub open spec fn spec_parse_nmap(text: Seq<char>) -> Seq<Seq<char>> {
    sweep_records(split_on(text, '\n'))
}

/// Parses the sweep tool's whole output: the parenthesized address of each
/// report line, in order; other lines are skipped. The result is
/// informational only — the sweep's purpose is its side effect of
/// populating the neighbor cache.
pub fn parse_nmap_output(text: &str) -> (r: Vec<String>)
    ensures
        string_views(r@) == spec_parse_nmap(text@),
{
    let lines = split_char(text, '\n');
    let ghost lv = string_views(lines@);
    let mut r: Vec<String> = Vec::new();
    let n = lines.len();
    let mut i: usize = 0;
    proof {
        assert(lv.skip(0) =~= lv);
        assert(string_views(r@) =~= Seq::<Seq<char>>::empty());
    }
    while i < n
        invariant
            n == lines@.len(),
            lv == string_views(lines@),
            lv == split_on(text@, '\n'),
            i <= n,
            string_views(r@) + sweep_records(lv.skip(i as int)) == spec_parse_nmap(text@),
        decreases n - i,
    {
        let ghost u = lv.skip(i as int);
        proof {
            assert(u[0] == lv[i as int]);
            assert(u.drop_first() =~= lv.skip(i as int + 1));
        }
        let ghost r0 = r@;
        match nmap_line_ip(lines[i].as_str()) {
            Some(ip) => {
                r.push(ip);
                proof {
                    assert(string_views(r@) =~= string_views(r0) + seq![ip@]);
                    assert(string_views(r0) + (seq![ip@] + sweep_records(
                        lv.skip(i as int + 1),
                    )) =~= (string_views(r0) + seq![ip@]) + sweep_records(lv.skip(i as int + 1)));
                }
            },
            None => {},
        }
        i += 1;
    }
    proof {
        assert(lv.skip(n as int) =~= Seq::<Seq<char>>::empty());
        assert(string_views(r@) =~= string_views(r@) + sweep_records(lv.skip(n as int)));
    }
    r
}

} // verus!
