//! Recognizing, parsing and serialising a single managed hosts-file line.
//!
//! A managed line is, structurally: an optional leading `#` (the line is
//! commented out), optional whitespace, an IP-shaped token (four
//! dot-separated decimal groups, or a non-empty run of hex digits and
//! colons), whitespace, a hostname token, whitespace, a token starting
//! with the tag `#muko:`, then — directly after the tag or after further
//! whitespace — an optional alias token.  [`decode_spec`] is the exact
//! definition; a line that fails it (even one containing the tag) is
//! simply not managed.

use vstd::prelude::*;
use vstd::string::*;

use crate::text::{
    digits_end, digits_end_in, is_digit, is_hex_or_colon, is_hex_or_colon_char, is_space,
    lemma_digits_end,
    lemma_skip_spaces, lemma_skip_spaces_at, lemma_token_end, lemma_token_end_at, skip_spaces,
    skip_spaces_in, token_end, token_end_in,
};

verus! {

/// A parsed managed line.
///
/// `active` is true exactly when the line is not commented out (the
/// override is in effect).  `prod_ip` is only ever filled in by the
/// report, for inactive entries, from a DNS answer.
#[derive(Debug, Clone, PartialEq, Eq)]
pub struct ManagedEntry {
    pub ip: String,
    pub domain: String,
    pub alias: Option<String>,
    pub active: bool,
    pub prod_ip: Option<String>,
}

/// The mathematical image of a [`ManagedEntry`].
pub struct EntryView {
    pub ip: Seq<char>,
    pub domain: Seq<char>,
    pub alias: Option<Seq<char>>,
    pub active: bool,
    pub prod_ip: Option<Seq<char>>,
}

impl View for ManagedEntry {
    type V = EntryView;

    open spec fn view(&self) -> EntryView {
        EntryView {
            ip: self.ip@,
            domain: self.domain@,
            alias: self.alias.deep_view(),
            active: self.active,
            prod_ip: self.prod_ip.deep_view(),
        }
    }
}

impl DeepView for ManagedEntry {
    type V = EntryView;

    open spec fn deep_view(&self) -> EntryView {
        self.view()
    }
}

/// The alias as the line carries it: absent means the empty token.
pub open spec fn alias_or_empty(alias: Option<Seq<char>>) -> Seq<char> {
    match alias {
        Some(a) => a,
        None => Seq::empty(),
    }
}

/// Four dot-separated, non-empty runs of decimal digits, spanning the
/// whole token.
pub open spec fn ipv4_shaped(t: Seq<char>) -> bool {
    let a = digits_end(t, 0);
    let b = digits_end(t, a + 1);
    let c = digits_end(t, b + 1);
    let d = digits_end(t, c + 1);
    &&& 0 < a < t.len()
    &&& t[a] == '.'
    &&& a + 1 < b < t.len()
    &&& t[b] == '.'
    &&& b + 1 < c < t.len()
    &&& t[c] == '.'
    &&& c + 1 < d
    &&& d == t.len()
}

/// A non-empty token made only of hex digits and colons: the loose IPv6
/// shape, with no validation beyond the character class.
pub open spec fn hexish(t: Seq<char>) -> bool {
    t.len() > 0 && forall|k: int| 0 <= k < t.len() ==> is_hex_or_colon(#[trigger] t[k])
}

/// An IP-shaped token.
pub open spec fn ip_shaped(t: Seq<char>) -> bool {
    ipv4_shaped(t) || hexish(t)
}

/// The tag `#muko:` stands at position `i` of `l`.
pub open spec fn tag_at(l: Seq<char>, i: int) -> bool {
    &&& i + 6 <= l.len()
    &&& l[i] == '#'
    &&& l[i + 1] == 'm'
    &&& l[i + 2] == 'u'
    &&& l[i + 3] == 'k'
    &&& l[i + 4] == 'o'
    &&& l[i + 5] == ':'
}

/// What parsing a line yields: the managed entry, or `None` for a line
/// this tool does not own.  `prod_ip` of a parsed entry is always absent.
pub open spec fn decode_spec(l: Seq<char>) -> Option<EntryView> {
    let commented = l.len() > 0 && l[0] == '#';
    let start: int = if commented {
        1
    } else {
        0
    };
    let ip_start = skip_spaces(l, start);
    let ip_end = token_end(l, ip_start);
    if ip_end <= ip_start {
        None
    } else if !ip_shaped(l.subrange(ip_start, ip_end)) {
        None
    } else if ip_end >= l.len() {
        None
    } else {
        let host_start = skip_spaces(l, ip_end);
        let host_end = token_end(l, host_start);
        if host_end <= host_start {
            None
        } else if host_end >= l.len() {
            None
        } else {
            let tag_start = skip_spaces(l, host_end);
            if !tag_at(l, tag_start) {
                None
            } else {
                let alias_start = skip_spaces(l, tag_start + 6);
                let alias_end = token_end(l, alias_start);
                Some(
                    EntryView {
                        ip: l.subrange(ip_start, ip_end),
                        domain: l.subrange(host_start, host_end),
                        alias: if alias_end <= alias_start {
                            None
                        } else {
                            Some(l.subrange(alias_start, alias_end))
                        },
                        active: !commented,
                        prod_ip: None,
                    },
                )
            }
        }
    }
}

pub fn is_ipv4_token(t: &str) -> (r: bool)
    ensures
        r == ipv4_shaped(t@),
{
    let n: usize = t.unicode_len();
    let a: usize = digits_end_in(t, 0);
    if !(0 < a && a < n) {
        return false;
    }
    if t.get_char(a) != '.' {
        return false;
    }
    let b: usize = digits_end_in(t, a + 1);
    if !(a + 1 < b && b < n) {
        return false;
    }
    if t.get_char(b) != '.' {
        return false;
    }
    let c: usize = digits_end_in(t, b + 1);
    if !(b + 1 < c && c < n) {
        return false;
    }
    if t.get_char(c) != '.' {
        return false;
    }
    let d: usize = digits_end_in(t, c + 1);
    c + 1 < d && d == n
}

pub fn is_hexish_token(t: &str) -> (r: bool)
    ensures
        r == hexish(t@),
{
    let n: usize = t.unicode_len();
    if n == 0 {
        return false;
    }
    let mut k: usize = 0;
    while k < n
        invariant
            k <= n,
            n as int == t@.len(),
            forall|u: int| 0 <= u < k ==> is_hex_or_colon(#[trigger] t@[u]),
        decreases n - k,
    {
        if !is_hex_or_colon_char(t.get_char(k)) {
            return false;
        }
        k = k + 1;
    }
    true
}

pub fn is_ip_token(t: &str) -> (r: bool)
    ensures
        r == ip_shaped(t@),
{
    is_ipv4_token(t) || is_hexish_token(t)
}

/// Parse one line.  Returns `None` for every line that is not managed,
/// including malformed lines that do contain the tag.
pub fn decode(line: &str) -> (r: Option<ManagedEntry>)
    ensures
        r.deep_view() == decode_spec(line@),
{
    let n: usize = line.unicode_len();
    let commented: bool = n > 0 && line.get_char(0) == '#';
    let start: usize = if commented {
        1
    } else {
        0
    };
    let ip_start: usize = skip_spaces_in(line, start);
    let ip_end: usize = token_end_in(line, ip_start);
    if ip_end <= ip_start {
        return None;
    }
    let ip_tok: &str = line.substring_char(ip_start, ip_end);
    if !is_ip_token(ip_tok) {
        return None;
    }
    if ip_end >= n {
        return None;
    }
    let host_start: usize = skip_spaces_in(line, ip_end);
    let host_end: usize = token_end_in(line, host_start);
    if host_end <= host_start {
        return None;
    }
    if host_end >= n {
        return None;
    }
    let tag_start: usize = skip_spaces_in(line, host_end);
    if n - tag_start < 6 {
        return None;
    }
    if !(line.get_char(tag_start) == '#' && line.get_char(tag_start + 1) == 'm' && line.get_char(
        tag_start + 2,
    ) == 'u' && line.get_char(tag_start + 3) == 'k' && line.get_char(tag_start + 4) == 'o'
        && line.get_char(tag_start + 5) == ':') {
        return None;
    }
    let alias_start: usize = skip_spaces_in(line, tag_start + 6);
    let alias_end: usize = token_end_in(line, alias_start);
    let ip: String = String::from_str(ip_tok);
    let domain: String = String::from_str(line.substring_char(host_start, host_end));
    let alias: Option<String> = if alias_end <= alias_start {
        None
    } else {
        Some(String::from_str(line.substring_char(alias_start, alias_end)))
    };
    Some(ManagedEntry { ip, domain, alias, active: !commented, prod_ip: None })
}

/// The entry `e` with its `active` flag set to `active`.
pub open spec fn with_active(e: EntryView, active: bool) -> EntryView {
    EntryView { ip: e.ip, domain: e.domain, alias: e.alias, active, prod_ip: e.prod_ip }
}

/// The serialised form of an active entry: `"{ip} {domain} #muko: {alias}"`.
pub open spec fn encoded_line(ip: Seq<char>, domain: Seq<char>, alias: Seq<char>) -> Seq<char> {
    ip + seq![' '] + domain + seq![' ', '#', 'm', 'u', 'k', 'o', ':', ' '] + alias
}

/// The serialised form of an entry; an inactive one gets a leading `#`.
pub open spec fn encoded_entry(e: EntryView) -> Seq<char> {
    let base = encoded_line(e.ip, e.domain, alias_or_empty(e.alias));
    if e.active {
        base
    } else {
        seq!['#'] + base
    }
}

/// Render the always-active line the registrar appends.
pub fn encode_parts(ip: &str, domain: &str, alias: &str) -> (r: String)
    ensures
        r@ == encoded_line(ip@, domain@, alias@),
{
    let mut out: String = String::new();
    out.append(ip);
    out.append(" ");
    out.append(domain);
    out.append(" #muko: ");
    out.append(alias);
    proof {
        reveal_strlit(" ");
        reveal_strlit(" #muko: ");
        assert(out@ =~= encoded_line(ip@, domain@, alias@));
    }
    out
}

/// Render an entry back into a line.
pub fn encode(e: &ManagedEntry) -> (r: String)
    ensures
        r@ == encoded_entry(e@),
{
    let alias: &str = match &e.alias {
        Some(a) => a.as_str(),
        None => "",
    };
    proof {
        reveal_strlit("");
        assert(alias@ =~= alias_or_empty(e@.alias));
    }
    let base: String = encode_parts(e.ip.as_str(), e.domain.as_str(), alias);
    if e.active {
        base
    } else {
        let mut out: String = String::from_str("#");
        out.append(base.as_str());
        proof {
            reveal_strlit("#");
            assert(out@ =~= encoded_entry(e@));
        }
        out
    }
}

/// An IP-shaped token is non-empty and free of whitespace and of `#`.
pub proof fn lemma_ip_token_chars(t: Seq<char>)
    requires
        ip_shaped(t),
    ensures
        t.len() > 0,
        forall|k: int| 0 <= k < t.len() ==> !is_space(#[trigger] t[k]) && t[k] != '#',
{
    if ipv4_shaped(t) {
        let a = digits_end(t, 0);
        let b = digits_end(t, a + 1);
        let c = digits_end(t, b + 1);
        let d = digits_end(t, c + 1);
        lemma_digits_end(t, 0);
        lemma_digits_end(t, a + 1);
        lemma_digits_end(t, b + 1);
        lemma_digits_end(t, c + 1);
        assert forall|k: int| 0 <= k < t.len() implies !is_space(#[trigger] t[k]) && t[k] != '#' by {
            if k < a || (a < k < b) || (b < k < c) || (c < k < d) {
                assert(is_digit(t[k]));
            } else {
                assert(t[k] == '.');
            }
        }
    } else {
        assert forall|k: int| 0 <= k < t.len() implies !is_space(#[trigger] t[k]) && t[k] != '#' by {
            assert(is_hex_or_colon(t[k]));
        }
    }
}

/// Basic shape facts every managed line satisfies.
pub proof fn lemma_decoded_shape(l: Seq<char>, e: EntryView)
    requires
        decode_spec(l) == Some(e),
    ensures
        l.len() > 0,
        e.active <==> l[0] != '#',
        e.prod_ip is None,
{
    let commented = l.len() > 0 && l[0] == '#';
    let start: int = if commented {
        1
    } else {
        0
    };
    lemma_skip_spaces(l, start);
    lemma_token_end(l, skip_spaces(l, start));
}

/// Decoding what `encoded_entry` produced for an active entry yields the
/// entry back, provided its fields can come from a managed line at all:
/// the IP is IP-shaped, domain and alias carry no whitespace, the domain
/// is non-empty and the alias, if present, is non-empty too.
pub proof fn lemma_decode_encoded(e: EntryView)
    requires
        ip_shaped(e.ip),
        e.domain.len() > 0,
        forall|k: int| 0 <= k < e.domain.len() ==> !is_space(#[trigger] e.domain[k]),
        forall|k: int|
            0 <= k < alias_or_empty(e.alias).len() ==> !is_space(
                #[trigger] alias_or_empty(e.alias)[k],
            ),
        e.alias matches Some(a) ==> a.len() > 0,
        e.prod_ip is None,
        e.active,
    ensures
        decode_spec(encoded_entry(e)) == Some(e),
{
    let al = alias_or_empty(e.alias);
    let l = encoded_entry(e);
    let li = e.ip.len() as int;
    let ld = e.domain.len() as int;
    let la = al.len() as int;
    assert(l.len() == li + ld + la + 9);
    lemma_ip_token_chars(e.ip);
    assert forall|k: int| 0 <= k < li implies l[k] == e.ip[k] by {}
    assert(l[li] == ' ');
    assert forall|k: int| 0 <= k < ld implies l[li + 1 + k] == e.domain[k] by {}
    assert(l[li + ld + 1] == ' ');
    assert(l[li + ld + 2] == '#');
    assert(l[li + ld + 3] == 'm');
    assert(l[li + ld + 4] == 'u');
    assert(l[li + ld + 5] == 'k');
    assert(l[li + ld + 6] == 'o');
    assert(l[li + ld + 7] == ':');
    assert(l[li + ld + 8] == ' ');
    assert forall|k: int| 0 <= k < la implies l[li + ld + 9 + k] == al[k] by {}
    // the line starts with the IP token
    assert(!is_space(l[0]) && l[0] != '#');
    assert(skip_spaces(l, 0) == 0);
    lemma_token_end_at(l, 0, li);
    assert(l.subrange(0, li) =~= e.ip);
    // one space, then the domain token
    lemma_skip_spaces_at(l, li, li + 1);
    lemma_token_end_at(l, li + 1, li + 1 + ld);
    assert(l.subrange(li + 1, li + 1 + ld) =~= e.domain);
    // one space, then the tag
    lemma_skip_spaces_at(l, li + 1 + ld, li + ld + 2);
    assert(tag_at(l, li + ld + 2));
    // one space, then the alias token running to the end of the line
    lemma_skip_spaces_at(l, li + ld + 8, li + ld + 9);
    if la > 0 {
        lemma_token_end_at(l, li + ld + 9, li + ld + 9 + la);
        assert(l.subrange(li + ld + 9, li + ld + 9 + la) =~= al);
    } else {
        assert(token_end(l, li + ld + 9) == li + ld + 9);
    }
    assert(decode_spec(l) == Some(e));
}

/// The inactive counterpart of [`lemma_decode_encoded`]: the rendered
/// line carries the leading `#` and decodes to the same entry, inactive.
pub proof fn lemma_decode_encoded_inactive(e: EntryView)
    requires
        ip_shaped(e.ip),
        e.domain.len() > 0,
        forall|k: int| 0 <= k < e.domain.len() ==> !is_space(#[trigger] e.domain[k]),
        forall|k: int|
            0 <= k < alias_or_empty(e.alias).len() ==> !is_space(
                #[trigger] alias_or_empty(e.alias)[k],
            ),
        e.alias matches Some(a) ==> a.len() > 0,
        e.prod_ip is None,
        !e.active,
    ensures
        decode_spec(encoded_entry(e)) == Some(e),
{
    let a = with_active(e, true);
    lemma_decode_encoded(a);
    lemma_decode_comment(encoded_entry(a), a);
    assert(encoded_entry(e) =~= seq!['#'] + encoded_entry(a));
    assert(with_active(a, false) == e);
}

/// Prefixing a managed active line with `#` yields the same entry,
/// inactive.
#[verifier::rlimit(100)]
pub proof fn lemma_decode_comment(l: Seq<char>, e: EntryView)
    requires
        decode_spec(l) == Some(e),
        e.active,
    ensures
        decode_spec(seq!['#'] + l) == Some(with_active(e, false)),
{
    let m = seq!['#'] + l;
    let lv = m.subrange(1, m.len() as int);
    assert(lv =~= l);
    lemma_decoded_shape(l, e);
    let ip_start = skip_spaces(l, 0);
    lemma_skip_spaces(l, 0);
    let ip_end = token_end(l, ip_start);
    lemma_token_end(l, ip_start);
    let host_start = skip_spaces(l, ip_end);
    lemma_skip_spaces(l, ip_end);
    let host_end = token_end(l, host_start);
    lemma_token_end(l, host_start);
    let tag_start = skip_spaces(l, host_end);
    lemma_skip_spaces(l, host_end);
    let alias_start = skip_spaces(l, tag_start + 6);
    lemma_skip_spaces(l, tag_start + 6);
    let alias_end = token_end(l, alias_start);
    lemma_token_end(l, alias_start);
    assert(m.len() == l.len() + 1 && m[0] == '#');
    crate::text::lemma_scan_shift(m, 1, 1);
    assert(skip_spaces(m, 1) == 1 + ip_start);
    crate::text::lemma_scan_shift(m, 1, 1 + ip_start);
    assert(token_end(m, 1 + ip_start) == 1 + ip_end);
    assert(m.subrange(1 + ip_start, 1 + ip_end) =~= l.subrange(ip_start, ip_end));
    crate::text::lemma_scan_shift(m, 1, 1 + ip_end);
    assert(skip_spaces(m, 1 + ip_end) == 1 + host_start);
    crate::text::lemma_scan_shift(m, 1, 1 + host_start);
    assert(token_end(m, 1 + host_start) == 1 + host_end);
    assert(m.subrange(1 + host_start, 1 + host_end) =~= l.subrange(host_start, host_end));
    crate::text::lemma_scan_shift(m, 1, 1 + host_end);
    assert(skip_spaces(m, 1 + host_end) == 1 + tag_start);
    assert(tag_at(m, 1 + tag_start)) by {
        assert(tag_at(l, tag_start));
        assert(m[1 + tag_start] == l[tag_start]);
        assert(m[1 + tag_start + 1] == l[tag_start + 1]);
        assert(m[1 + tag_start + 2] == l[tag_start + 2]);
        assert(m[1 + tag_start + 3] == l[tag_start + 3]);
        assert(m[1 + tag_start + 4] == l[tag_start + 4]);
        assert(m[1 + tag_start + 5] == l[tag_start + 5]);
    }
    lemma_skip_spaces(l, tag_start + 6);
    crate::text::lemma_scan_shift(m, 1, 1 + tag_start + 6);
    assert(skip_spaces(m, 1 + tag_start + 6) == 1 + alias_start);
    crate::text::lemma_scan_shift(m, 1, 1 + alias_start);
    assert(token_end(m, 1 + alias_start) == 1 + alias_end);
    if alias_end > alias_start {
        assert(m.subrange(1 + alias_start, 1 + alias_end) =~= l.subrange(alias_start, alias_end));
    }
    assert(decode_spec(m) == Some(with_active(e, false)));
}

/// The line a commented managed line uncomments to: drop the leading `#`
/// and the whitespace right after it, keep the rest verbatim.
pub open spec fn uncommented(l: Seq<char>) -> Seq<char> {
    l.subrange(skip_spaces(l, 1), l.len() as int)
}

/// Uncommenting a managed inactive line yields the same entry, active.
#[verifier::rlimit(100)]
pub proof fn lemma_decode_uncomment(l: Seq<char>, e: EntryView)
    requires
        decode_spec(l) == Some(e),
        !e.active,
    ensures
        decode_spec(uncommented(l)) == Some(with_active(e, true)),
{
    lemma_decoded_shape(l, e);
    let d = skip_spaces(l, 1);
    lemma_skip_spaces(l, 1);
    let ip_end = token_end(l, d);
    lemma_token_end(l, d);
    let host_start = skip_spaces(l, ip_end);
    lemma_skip_spaces(l, ip_end);
    let host_end = token_end(l, host_start);
    lemma_token_end(l, host_start);
    let tag_start = skip_spaces(l, host_end);
    lemma_skip_spaces(l, host_end);
    let alias_start = skip_spaces(l, tag_start + 6);
    lemma_skip_spaces(l, tag_start + 6);
    let alias_end = token_end(l, alias_start);
    lemma_token_end(l, alias_start);
    let u = l.subrange(d, l.len() as int);
    assert(d < l.len());
    let ipt = l.subrange(d, ip_end);
    lemma_ip_token_chars(ipt);
    assert(u[0] == l[d] && l[d] == ipt[0]);
    assert(!is_space(u[0]) && u[0] != '#');
    assert(skip_spaces(u, 0) == 0);
    crate::text::lemma_scan_shift(l, d, d);
    assert(token_end(u, 0) == ip_end - d);
    assert(u.subrange(0, ip_end - d) =~= l.subrange(d, ip_end));
    crate::text::lemma_scan_shift(l, d, ip_end);
    assert(skip_spaces(u, ip_end - d) == host_start - d);
    crate::text::lemma_scan_shift(l, d, host_start);
    assert(token_end(u, host_start - d) == host_end - d);
    assert(u.subrange(host_start - d, host_end - d) =~= l.subrange(host_start, host_end));
    crate::text::lemma_scan_shift(l, d, host_end);
    assert(skip_spaces(u, host_end - d) == tag_start - d);
    assert(tag_at(u, tag_start - d)) by {
        assert(tag_at(l, tag_start));
        assert(u[tag_start - d] == l[tag_start]);
        assert(u[tag_start - d + 1] == l[tag_start + 1]);
        assert(u[tag_start - d + 2] == l[tag_start + 2]);
        assert(u[tag_start - d + 3] == l[tag_start + 3]);
        assert(u[tag_start - d + 4] == l[tag_start + 4]);
        assert(u[tag_start - d + 5] == l[tag_start + 5]);
    }
    crate::text::lemma_scan_shift(l, d, tag_start + 6);
    assert(skip_spaces(u, tag_start - d + 6) == alias_start - d);
    crate::text::lemma_scan_shift(l, d, alias_start);
    assert(token_end(u, alias_start - d) == alias_end - d);
    if alias_end > alias_start {
        assert(u.subrange(alias_start - d, alias_end - d) =~= l.subrange(alias_start, alias_end));
    }
    assert(decode_spec(u) == Some(with_active(e, true)));
}

} // verus!
