//! Syntactic validity of addresses.
//!
//! The neighbor-table parser accepts a line only when its IP column is a
//! valid textual IPv4 or IPv6 address and its MAC column has exactly six
//! colon-separated groups of one or two hexadecimal digits. IPv4 is the
//! dotted-quad form with decimal octets and no leading zeros; IPv6 is the
//! colon-hexadecimal form of one-to-four-digit hextets, with at most one
//! `::` run standing for the elided zero groups (the variant with a
//! trailing dotted-quad is not accepted).

use crate::text::{split_char, split_on, string_views};
use vstd::prelude::*;

verus! {

broadcast use crate::text::group_string_views;

/// A decimal digit.
pub open spec fn is_dec_digit(c: char) -> bool {
    '0' as u32 <= c as u32 && c as u32 <= '9' as u32
}

/// A hexadecimal digit, either case.
pub open spec fn is_hex_digit(c: char) -> bool {
    ('0' as u32 <= c as u32 && c as u32 <= '9' as u32) || ('a' as u32 <= c as u32 && c as u32
        <= 'f' as u32) || ('A' as u32 <= c as u32 && c as u32 <= 'F' as u32)
}

/// The numeric value of a decimal digit string.
pub open spec fn dec_val(g: Seq<char>) -> nat
    decreases g.len(),
{
    if g.len() == 0 {
        0
    } else {
        (dec_val(g.drop_last()) * 10 + (g.last() as u32 - '0' as u32)) as nat
    }
}

/// A digit string of at most three digits stays under the corresponding
/// power of ten.
proof fn lemma_dec_val_bound(g: Seq<char>)
    requires
        forall|i: int| 0 <= i < g.len() ==> is_dec_digit(#[trigger] g[i]),
    ensures
        g.len() <= 1 ==> dec_val(g) <= 9,
        g.len() <= 2 ==> dec_val(g) <= 99,
        g.len() <= 3 ==> dec_val(g) <= 999,
    decreases g.len(),
{
    if g.len() > 0 {
        let t = g.drop_last();
        assert forall|i: int| 0 <= i < t.len() implies is_dec_digit(#[trigger] t[i]) by {
            assert(t[i] == g[i]);
        }
        lemma_dec_val_bound(t);
        assert(is_dec_digit(g[g.len() - 1]));
    }
}

/// A decimal octet: one to three digits, value at most 255, and no leading
/// zero unless the octet is exactly "0".
pub open spec fn valid_octet(g: Seq<char>) -> bool {
    &&& 1 <= g.len() <= 3
    &&& forall|i: int| 0 <= i < g.len() ==> is_dec_digit(#[trigger] g[i])
    &&& dec_val(g) <= 255
    &&& g.len() == 1 || g[0] != '0'
}

/// A textual IPv4 address: four dot-separated decimal octets.
pub open spec fn valid_ipv4(s: Seq<char>) -> bool {
    let g = split_on(s, '.');
    g.len() == 4 && forall|i: int| 0 <= i < 4 ==> valid_octet(#[trigger] g[i])
}

/// An IPv6 hextet: one to four hexadecimal digits.
pub open spec fn valid_hextet(g: Seq<char>) -> bool {
    1 <= g.len() <= 4 && forall|i: int| 0 <= i < g.len() ==> is_hex_digit(#[trigger] g[i])
}

/// A textual IPv6 address in colon-hexadecimal form, stated over the
/// colon-split of the string: either eight hextets, or a single `::` run —
/// leading, trailing, inner, or the whole address — standing for at least
/// one elided zero group, with hextets everywhere else.
pub open spec fn valid_ipv6(s: Seq<char>) -> bool {
    let g = split_on(s, ':');
    let n = g.len() as int;
    ||| (n == 8 && forall|i: int| 0 <= i < 8 ==> valid_hextet(#[trigger] g[i]))
    ||| (n == 3 && g[0].len() == 0 && g[1].len() == 0 && g[2].len() == 0)
    ||| (3 <= n <= 9 && g[0].len() == 0 && g[1].len() == 0 && forall|i: int|
        2 <= i < n ==> valid_hextet(#[trigger] g[i]))
    ||| (3 <= n <= 9 && g[n - 1].len() == 0 && g[n - 2].len() == 0 && forall|i: int|
        0 <= i < n - 2 ==> valid_hextet(#[trigger] g[i]))
    ||| (3 <= n <= 8 && exists|k: int|
        1 <= k <= n - 2 && g[k].len() == 0 && forall|i: int|
            0 <= i < n && i != k ==> valid_hextet(#[trigger] g[i]))
}

/// A valid textual IP address, of either family.
pub open spec fn valid_ip(s: Seq<char>) -> bool {
    valid_ipv4(s) || valid_ipv6(s)
}

/// A MAC group: one or two hexadecimal digits.
pub open spec fn valid_mac_group(g: Seq<char>) -> bool {
    1 <= g.len() <= 2 && forall|i: int| 0 <= i < g.len() ==> is_hex_digit(#[trigger] g[i])
}

/// A textual MAC address: exactly six colon-separated groups of one or two
/// hexadecimal digits.
pub open spec fn valid_mac(s: Seq<char>) -> bool {
    let g = split_on(s, ':');
    g.len() == 6 && forall|i: int| 0 <= i < 6 ==> valid_mac_group(#[trigger] g[i])
}

fn is_dec_digit_char(c: char) -> (r: bool)
    ensures
        r == is_dec_digit(c),
{
    let v = c as u32;
    '0' as u32 <= v && v <= '9' as u32
}

fn is_hex_digit_char(c: char) -> (r: bool)
    ensures
        r == is_hex_digit(c),
{
    let v = c as u32;
    ('0' as u32 <= v && v <= '9' as u32) || ('a' as u32 <= v && v <= 'f' as u32) || ('A' as u32
        <= v && v <= 'F' as u32)
}

/// Checks one dotted-quad octet.
fn check_octet(g: &str) -> (r: bool)
    ensures
        r == valid_octet(g@),
{
    let len = g.unicode_len();
    if len < 1 || len > 3 {
        return false;
    }
    let mut val: u32 = 0;
    let mut i: usize = 0;
    proof {
        assert(g@.take(0) =~= Seq::<char>::empty());
    }
    while i < len
        invariant
            len == g@.len(),
            1 <= len <= 3,
            i <= len,
            forall|j: int| 0 <= j < i ==> is_dec_digit(#[trigger] g@[j]),
            val == dec_val(g@.take(i as int)),
        decreases len - i,
    {
        let c = g.get_char(i);
        if !is_dec_digit_char(c) {
            return false;
        }
        proof {
            assert(g@.take(i as int + 1).drop_last() =~= g@.take(i as int));
            assert(g@.take(i as int + 1).last() == g@[i as int]);
            lemma_dec_val_bound(g@.take(i as int));
        }
        val = val * 10 + (c as u32 - 48);
        i += 1;
    }
    proof {
        assert(g@.take(len as int) =~= g@);
    }
    if val > 255 {
        return false;
    }
    if len > 1 && g.get_char(0) == '0' {
        return false;
    }
    true
}

/// Checks a dotted-quad IPv4 address.
pub fn check_ipv4(s: &str) -> (r: bool)
    ensures
        r == valid_ipv4(s@),
{
    let groups = split_char(s, '.');
    let ghost gv = string_views(groups@);
    if groups.len() != 4 {
        return false;
    }
    let mut i: usize = 0;
    while i < 4
        invariant
            groups@.len() == 4,
            gv == string_views(groups@),
            gv == split_on(s@, '.'),
            i <= 4,
            forall|j: int| 0 <= j < i ==> valid_octet(#[trigger] gv[j]),
        decreases 4 - i,
    {
        if !check_octet(groups[i].as_str()) {
            proof {
                assert(!valid_octet(gv[i as int]));
            }
            return false;
        }
        i += 1;
    }
    true
}

/// Checks one IPv6 hextet.
fn check_hextet(g: &str) -> (r: bool)
    ensures
        r == valid_hextet(g@),
{
    let len = g.unicode_len();
    if len < 1 || len > 4 {
        return false;
    }
    let mut i: usize = 0;
    while i < len
        invariant
            len == g@.len(),
            i <= len,
            forall|j: int| 0 <= j < i ==> is_hex_digit(#[trigger] g@[j]),
        decreases len - i,
    {
        if !is_hex_digit_char(g.get_char(i)) {
            return false;
        }
        i += 1;
    }
    true
}

/// Checks that every group with index in `lo .. hi` is a valid hextet.
fn all_hextets(groups: &Vec<String>, lo: usize, hi: usize) -> (r: bool)
    requires
        lo <= hi <= groups@.len(),
    ensures
        r == forall|i: int| lo <= i < hi ==> valid_hextet(#[trigger] string_views(groups@)[i]),
{
    let ghost gv = string_views(groups@);
    let mut i = lo;
    while i < hi
        invariant
            lo <= i <= hi <= groups@.len(),
            gv == string_views(groups@),
            forall|j: int| lo <= j < i ==> valid_hextet(#[trigger] gv[j]),
        decreases hi - i,
    {
        if !check_hextet(groups[i].as_str()) {
            proof {
                assert(!valid_hextet(gv[i as int]));
            }
            return false;
        }
        i += 1;
    }
    true
}

/// Checks a colon-hexadecimal IPv6 address.
pub fn check_ipv6(s: &str) -> (r: bool)
    ensures
        r == valid_ipv6(s@),
{
    let groups = split_char(s, ':');
    let ghost gv = string_views(groups@);
    let n = groups.len();
    let c1 = n == 8 && all_hextets(&groups, 0, 8);
    let c2 = n == 3 && groups[0].as_str().is_empty() && groups[1].as_str().is_empty()
        && groups[2].as_str().is_empty();
    let c3 = if 3 <= n && n <= 9 {
        groups[0].as_str().is_empty() && groups[1].as_str().is_empty() && all_hextets(
            &groups,
            2,
            n,
        )
    } else {
        false
    };
    let c4 = if 3 <= n && n <= 9 {
        groups[n - 1].as_str().is_empty() && groups[n - 2].as_str().is_empty() && all_hextets(
            &groups,
            0,
            n - 2,
        )
    } else {
        false
    };
    let c5 = if 3 <= n && n <= 8 {
        // The first empty group with an index in 1 ..= n - 2, or `n` when
        // there is none.
        let mut inner: usize = n;
        let mut k: usize = 1;
        while k + 1 < n
            invariant
                n == groups@.len(),
                gv == string_views(groups@),
                3 <= n <= 8,
                1 <= k <= n - 1,
                inner == n || (1 <= inner && inner + 1 < n && gv[inner as int].len() == 0),
                inner == n ==> forall|j: int| 1 <= j < k ==> (#[trigger] gv[j]).len() != 0,
            decreases n - k,
        {
            if inner == n && groups[k].as_str().is_empty() {
                inner = k;
            }
            k += 1;
        }
        if inner == n {
            proof {
                assert forall|k2: int|
                    1 <= k2 <= n - 2 implies (#[trigger] gv[k2]).len() != 0 by {}
            }
            false
        } else {
            let a = all_hextets(&groups, 0, inner);
            let b = all_hextets(&groups, inner + 1, n);
            if a && b {
                proof {
                    assert forall|i: int| 0 <= i < n && i != inner as int implies valid_hextet(
                        #[trigger] gv[i],
                    ) by {}
                    assert(1 <= inner as int <= n - 2 && gv[inner as int].len() == 0);
                }
                true
            } else {
                proof {
                    assert forall|k2: int|
                        1 <= k2 <= n - 2 && (#[trigger] gv[k2]).len() == 0 implies !(forall|i: int|
                        0 <= i < n && i != k2 ==> valid_hextet(#[trigger] gv[i])) by {
                        if k2 != inner as int {
                            assert(gv[inner as int].len() == 0);
                            assert(!valid_hextet(gv[inner as int]));
                        } else if !a {
                            let w = choose|i: int|
                                0 <= i < inner as int && !valid_hextet(#[trigger] gv[i]);
                            assert(0 <= w < n && w != k2 && !valid_hextet(gv[w]));
                        } else {
                            let w = choose|i: int|
                                inner as int + 1 <= i < n && !valid_hextet(#[trigger] gv[i]);
                            assert(0 <= w < n && w != k2 && !valid_hextet(gv[w]));
                        }
                    }
                }
                false
            }
        }
    } else {
        false
    };
    c1 || c2 || c3 || c4 || c5
}

/// Checks a textual IP address of either family.
pub fn check_ip(s: &str) -> (r: bool)
    ensures
        r == valid_ip(s@),
{
    if check_ipv4(s) {
        true
    } else {
        check_ipv6(s)
    }
}

/// Checks one MAC group.
fn check_mac_group(g: &str) -> (r: bool)
    ensures
        r == valid_mac_group(g@),
{
    let len = g.unicode_len();
    if len < 1 || len > 2 {
        return false;
    }
    let mut i: usize = 0;
    while i < len
        invariant
            len == g@.len(),
            i <= len,
            forall|j: int| 0 <= j < i ==> is_hex_digit(#[trigger] g@[j]),
        decreases len - i,
    {
        if !is_hex_digit_char(g.get_char(i)) {
            return false;
        }
        i += 1;
    }
    true
}

/// Checks a textual MAC address.
pub fn check_mac(s: &str) -> (r: bool)
    ensures
        r == valid_mac(s@),
{
    let groups = split_char(s, ':');
    let ghost gv = string_views(groups@);
    if groups.len() != 6 {
        return false;
    }
    let mut i: usize = 0;
    while i < 6
        invariant
            groups@.len() == 6,
            gv == string_views(groups@),
            gv == split_on(s@, ':'),
            i <= 6,
            forall|j: int| 0 <= j < i ==> valid_mac_group(#[trigger] gv[j]),
        decreases 6 - i,
    {
        if !check_mac_group(groups[i].as_str()) {
            proof {
                assert(!valid_mac_group(gv[i as int]));
            }
            return false;
        }
        i += 1;
    }
    true
}

} // verus!
