//! Where a peer can be reached: the addresses it can advertise, and the query that finds its
//! public address.
use crate::text;
use rand::RngCore;
use vstd::prelude::*;
use vstd::string::*;

verus! {

/// An IPv4 address, by its four bytes.
#[derive(Debug, Clone, Copy, PartialEq, Eq, Structural)]
pub struct Ipv4 {
    pub a: u8,
    pub b: u8,
    pub c: u8,
    pub d: u8,
}

/// An address in dotted decimal notation.
pub open spec fn dotted(ip: Ipv4) -> Seq<char> {
    text::decimal(ip.a as nat) + "."@ + text::decimal(ip.b as nat) + "."@ + text::decimal(
        ip.c as nat,
    ) + "."@ + text::decimal(ip.d as nat)
}

/// An address in dotted decimal notation.
pub fn ipv4_text(ip: &Ipv4) -> (r: String)
    ensures
        r@ == dotted(*ip),
{
    let mut s = String::new();
    text::push_decimal(&mut s, ip.a as u32);
    s.append(".");
    text::push_decimal(&mut s, ip.b as u32);
    s.append(".");
    text::push_decimal(&mut s, ip.c as u32);
    s.append(".");
    text::push_decimal(&mut s, ip.d as u32);
    assert(s@ =~= dotted(*ip));
    s
}

/// Whether an address can be one that others reach: neither a loopback address nor unspecified.
pub open spec fn is_outward(ip: Ipv4) -> bool {
    ip.a != 127 && !(ip.a == 0 && ip.b == 0 && ip.c == 0 && ip.d == 0)
}

/// The outward addresses among those found, each once, in the order in which they were found.
pub open spec fn outward(found: Seq<Ipv4>) -> Seq<Ipv4>
    decreases found.len(),
{
    if found.len() == 0 {
        Seq::empty()
    } else {
        let before = outward(found.drop_last());
        let ip = found.last();
        if is_outward(ip) && !before.contains(ip) {
            before.push(ip)
        } else {
            before
        }
    }
}

/// Whether a list holds an address.
fn holds(list: &Vec<Ipv4>, ip: Ipv4) -> (r: bool)
    ensures
        r == list@.contains(ip),
{
    let mut i: usize = 0;
    while i < list.len()
        invariant
            i <= list@.len(),
            forall|j: int| 0 <= j < i ==> list@[j] != ip,
        decreases list@.len() - i,
    {
        if list[i] == ip {
            return true;
        }
        i = i + 1;
    }
    false
}

/// The addresses of this machine among those that probes found.
pub fn local_ipv4_addrs(found: &[Ipv4]) -> (r: Vec<Ipv4>)
    ensures
        r@ == outward(found@),
{
    let mut out: Vec<Ipv4> = Vec::new();
    let mut i: usize = 0;
    assert(found@.take(0) =~= Seq::<Ipv4>::empty());
    while i < found.len()
        invariant
            i <= found@.len(),
            out@ == outward(found@.take(i as int)),
        decreases found@.len() - i,
    {
        let ip = found[i];
        let unspecified = ip.a == 0 && ip.b == 0 && ip.c == 0 && ip.d == 0;
        if ip.a != 127 && !unspecified && !holds(&out, ip) {
            out.push(ip);
        }
        assert(found@.take(i + 1).drop_last() =~= found@.take(i as int));
        i = i + 1;
    }
    assert(found@.take(i as int) =~= found@);
    out
}

/// The base URL of a host at a port.
pub open spec fn base_url(host: Seq<char>, port: u16) -> Seq<char> {
    "http://"@ + host + ":"@ + text::decimal(port as nat)
}

/// A host as it was given, without the scheme before it and the slashes behind it.
pub open spec fn bare_host(host: Seq<char>) -> Seq<char> {
    text::without_trailing(
        text::without_leading(text::without_leading(host, "http://"@), "https://"@),
        '/',
    )
}

/// Whether a host ends in a port.
pub open spec fn has_port(host: Seq<char>) -> bool {
    let colon = text::last_place(host, ':');
    0 <= colon < host.len() - 1 && text::all_digits(host.skip(colon + 1))
}

/// The base URL of a host that someone entered: at the port that the host names, if it names one.
pub open spec fn advertised_url(host: Seq<char>, port: u16) -> Seq<char> {
    let bare = bare_host(host);
    if has_port(bare) {
        "http://"@ + bare
    } else {
        base_url(bare, port)
    }
}

/// The host to advertise, if one was entered.
pub open spec fn entered(host: Option<Seq<char>>) -> Option<Seq<char>> {
    match host {
        Some(h) => if text::trimmed(h).len() > 0 {
            Some(text::trimmed(h))
        } else {
            None
        },
        None => None,
    }
}

/// A list of URLs with those of some addresses at its end, except those it holds already.
pub open spec fn with_addresses(urls: Seq<Seq<char>>, ips: Seq<Ipv4>, port: u16) -> Seq<Seq<char>>
    decreases ips.len(),
{
    if ips.len() == 0 {
        urls
    } else {
        text::with_new(
            with_addresses(urls, ips.drop_last(), port),
            base_url(dotted(ips.last()), port),
        )
    }
}

/// The base URLs under which a peer may be reached, the best first: the advertised host, then the
/// addresses of the machine, then the loopback address.
pub open spec fn candidates(port: u16, host: Option<Seq<char>>, ips: Seq<Ipv4>) -> Seq<Seq<char>> {
    let first = match entered(host) {
        Some(h) => seq![advertised_url(h, port)],
        None => Seq::empty(),
    };
    text::with_new(with_addresses(first, ips, port), base_url("127.0.0.1"@, port))
}

/// The candidates begin with the advertised host where one was entered, and with the first address
/// of the machine, if it has one, where none was. The loopback address is one of them, and so is
/// each address of the machine. None occurs twice.
pub proof fn law_candidates(port: u16, host: Option<Seq<char>>, ips: Seq<Ipv4>)
    ensures
        candidates(port, host, ips).len() > 0,
        candidates(port, host, ips)[0] == match entered(host) {
            Some(h) => advertised_url(h, port),
            None => if ips.len() > 0 {
                base_url(dotted(ips[0]), port)
            } else {
                base_url("127.0.0.1"@, port)
            },
        },
        candidates(port, host, ips).contains(base_url("127.0.0.1"@, port)),
        forall|i: int|
            0 <= i < ips.len() ==> candidates(port, host, ips).contains(
                base_url(dotted(#[trigger] ips[i]), port),
            ),
        candidates(port, host, ips).no_duplicates(),
{
    let first = match entered(host) {
        Some(h) => seq![advertised_url(h, port)],
        None => Seq::empty(),
    };
    lemma_addresses(first, ips, port);
    let urls = with_addresses(first, ips, port);
    lemma_with_new(urls, base_url("127.0.0.1"@, port));
    let all = candidates(port, host, ips);
    assert forall|i: int| 0 <= i < ips.len() implies all.contains(
        base_url(dotted(#[trigger] ips[i]), port),
    ) by {
        let u = base_url(dotted(ips[i]), port);
        assert(urls.contains(u));
    }
}

/// The first candidate begins with the scheme and ends in a digit.
pub proof fn lemma_first_candidate(port: u16, host: Option<Seq<char>>, ips: Seq<Ipv4>)
    ensures
        "http://"@.is_prefix_of(candidates(port, host, ips)[0]),
        '0' <= candidates(port, host, ips)[0].last() <= '9',
{
    law_candidates(port, host, ips);
    text::lemma_decimal_ends_in_digit(port as nat);
    if entered(host) is Some {
        let bare = bare_host(entered(host)->0);
        if has_port(bare) {
            let colon = text::last_place(bare, ':');
            let digits = bare.skip(colon + 1);
            assert(digits[digits.len() - 1] == bare.last());
        }
    }
}

proof fn lemma_with_new(list: Seq<Seq<char>>, s: Seq<char>)
    requires
        list.no_duplicates(),
    ensures
        text::with_new(list, s).no_duplicates(),
        text::with_new(list, s).contains(s),
        forall|t: Seq<char>| list.contains(t) ==> text::with_new(list, s).contains(t),
{
    let r = text::with_new(list, s);
    if !list.contains(s) {
        assert(r[list.len() as int] == s);
        assert forall|t: Seq<char>| list.contains(t) implies r.contains(t) by {
            let i = list.index_of(t);
            assert(r[i] == t);
        }
    }
}

proof fn lemma_addresses(urls: Seq<Seq<char>>, ips: Seq<Ipv4>, port: u16)
    requires
        urls.no_duplicates(),
    ensures
        with_addresses(urls, ips, port).no_duplicates(),
        with_addresses(urls, ips, port).len() >= urls.len(),
        urls.len() > 0 ==> with_addresses(urls, ips, port)[0] == urls[0],
        urls.len() == 0 && ips.len() > 0 ==> with_addresses(urls, ips, port).len() > 0
            && with_addresses(urls, ips, port)[0] == base_url(dotted(ips[0]), port),
        forall|i: int|
            0 <= i < ips.len() ==> with_addresses(urls, ips, port).contains(
                base_url(dotted(#[trigger] ips[i]), port),
            ),
    decreases ips.len(),
{
    if ips.len() > 0 {
        let before = with_addresses(urls, ips.drop_last(), port);
        lemma_addresses(urls, ips.drop_last(), port);
        lemma_with_new(before, base_url(dotted(ips.last()), port));
        assert forall|i: int| 0 <= i < ips.len() implies with_addresses(urls, ips, port).contains(
            base_url(dotted(#[trigger] ips[i]), port),
        ) by {
            if i < ips.len() - 1 {
                assert(ips.drop_last()[i] == ips[i]);
            }
        }
    }
}

/// The base URL of a host at a port.
pub(crate) fn base_url_of(host: &str, port: u16) -> (r: String)
    ensures
        r@ == base_url(host@, port),
{
    let mut s = "http://".to_owned();
    s.append(host);
    s.append(":");
    text::push_decimal(&mut s, port as u32);
    s
}

/// The base URL of a host that someone entered.
pub(crate) fn advertised_url_of(host: &str, port: u16) -> (r: String)
    ensures
        r@ == advertised_url(host@, port),
{
    let without_http = text::trim_start_of(host, "http://");
    let without_scheme = text::trim_start_of(without_http.as_str(), "https://");
    let bare = text::trim_end_of(without_scheme.as_str(), '/');
    let named = match text::find_last(bare.as_str(), ':') {
        Some(i) => i < bare.as_str().unicode_len() - 1 && text::digits_from(bare.as_str(), i + 1),
        None => false,
    };
    if named {
        let mut s = "http://".to_owned();
        s.append(bare.as_str());
        s
    } else {
        base_url_of(bare.as_str(), port)
    }
}

/// The host to advertise, if one was entered.
pub fn entered_host(host: Option<&str>) -> (r: Option<String>)
    ensures
        entered(
            match host {
                Some(h) => Some(h@),
                None => None,
            },
        ) == match r {
            Some(h) => Some(h@),
            None => None,
        },
{
    match host {
        Some(h) => {
            let trimmed = text::trim(h);
            if trimmed.as_str().unicode_len() > 0 {
                Some(trimmed)
            } else {
                None
            }
        },
        None => None,
    }
}

/// The base URLs under which a peer that listens on `port` may be reached, the best first, where
/// `local` holds the addresses of the machine.
pub fn candidate_base_urls(port: u16, advertise_host: Option<&str>, local: &[Ipv4]) -> (r: Vec<
    String,
>)
    ensures
        text::texts(r@) == candidates(
            port,
            match advertise_host {
                Some(h) => Some(h@),
                None => None,
            },
            local@,
        ),
{
    let mut urls: Vec<String> = Vec::new();
    match entered_host(advertise_host) {
        Some(host) => {
            urls.push(advertised_url_of(host.as_str(), port));
        },
        None => {},
    }
    let ghost first = text::texts(urls@);
    assert(first =~= match entered(
        match advertise_host {
            Some(h) => Some(h@),
            None => None,
        },
    ) {
        Some(h) => seq![advertised_url(h, port)],
        None => Seq::empty(),
    });
    let mut i: usize = 0;
    while i < local.len()
        invariant
            i <= local@.len(),
            text::texts(urls@) == with_addresses(first, local@.take(i as int), port),
        decreases local@.len() - i,
    {
        let ip = ipv4_text(&local[i]);
        assert(local@.take(i + 1).drop_last() =~= local@.take(i as int));
        text::push_new(&mut urls, base_url_of(ip.as_str(), port));
        i = i + 1;
    }
    assert(local@.take(i as int) =~= local@);
    text::push_new(&mut urls, base_url_of("127.0.0.1", port));
    urls
}

/// The URL to share: that of the advertised host, or that of the public address where no host was
/// entered.
pub open spec fn suggested_url(port: u16, host: Option<Seq<char>>, public: Option<Ipv4>) -> Option<
    Seq<char>,
> {
    match entered(host) {
        Some(h) => Some(advertised_url(h, port)),
        None => match public {
            Some(ip) => Some(base_url(dotted(ip), port)),
            None => None,
        },
    }
}

/// A host as it can be advertised: without a scheme before it, and without slashes behind it.
pub open spec fn is_bare(host: Seq<char>) -> bool {
    &&& !"http://"@.is_prefix_of(host)
    &&& !"https://"@.is_prefix_of(host)
    &&& host.len() > 0 ==> host.last() != '/'
}

/// A host that names no port is advertised at the port that the peer listens on; one that ends in a
/// colon and digits, however many, keeps the port that it names. A host that ends otherwise behind
/// its last colon names no port.
pub proof fn law_advertised_url(name: Seq<char>, end: Seq<char>, port: u16)
    requires
        !end.contains(':'),
    ensures
        is_bare(end) ==> advertised_url(end, port) == "http://"@ + end + ":"@ + text::decimal(
            port as nat,
        ),
        is_bare(name + ":"@ + end) ==> advertised_url(name + ":"@ + end, port) == if end.len() > 0
            && (forall|i: int| 0 <= i < end.len() ==> '0' <= #[trigger] end[i] <= '9') {
            "http://"@ + name + ":"@ + end
        } else {
            "http://"@ + name + ":"@ + end + ":"@ + text::decimal(port as nat)
        },
{
    reveal_strlit(":");
    let host = name + ":"@ + end;
    assert(host =~= name.push(':') + end);
    text::law_last_place(name, ':', end);
    assert(host.skip(name.len() as int + 1) =~= end);
    assert("http://"@ + host =~= "http://"@ + name + ":"@ + end);
    assert("http://"@ + host + ":"@ + text::decimal(port as nat) =~= "http://"@ + name + ":"@ + end
        + ":"@ + text::decimal(port as nat));
    if is_bare(host) {
        lemma_bare(host);
    }
    if is_bare(end) {
        lemma_bare(end);
    }
}

proof fn lemma_bare(host: Seq<char>)
    requires
        is_bare(host),
    ensures
        bare_host(host) == host,
{
}

/// A host without slashes is bare.
proof fn lemma_no_slash(host: Seq<char>)
    requires
        !host.contains('/'),
    ensures
        is_bare(host),
{
    reveal_strlit("http://");
    reveal_strlit("https://");
    assert forall|i: int| 0 <= i < host.len() implies #[trigger] host[i] != '/' by {
        assert(host.contains(host[i]));
    }
    if "http://"@.is_prefix_of(host) {
        assert("http://"@[5] == host[5]);
    }
    if "https://"@.is_prefix_of(host) {
        assert("https://"@[6] == host[6]);
    }
}

/// A host without slashes that names its port is advertised at that port, whatever port the peer
/// listens on; one without a colon is advertised at the port that the peer listens on.
pub proof fn law_named_port_is_kept(host: Seq<char>, named: u16, port: u16)
    requires
        !host.contains('/'),
    ensures
        advertised_url(host + ":"@ + text::decimal(named as nat), port) == "http://"@ + host + ":"@
            + text::decimal(named as nat),
        !host.contains(':') ==> advertised_url(host, port) == "http://"@ + host + ":"@
            + text::decimal(port as nat),
{
    reveal_strlit(":");
    let digits = text::decimal(named as nat);
    text::law_decimal_reads_back(named as nat);
    assert forall|i: int| 0 <= i < digits.len() implies #[trigger] digits[i] != '/' && digits[i]
        != ':' by {
        assert('0' <= digits[i] <= '9');
    }
    let whole = host + ":"@ + digits;
    assert(!whole.contains('/')) by {
        assert forall|i: int| 0 <= i < whole.len() implies whole[i] != '/' by {
            if i < host.len() {
                assert(host.contains(host[i]));
            } else if i > host.len() {
                assert(whole[i] == digits[i - host.len() - 1]);
            }
        }
    }
    lemma_no_slash(whole);
    lemma_no_slash(host);
    law_advertised_url(host, digits, port);
    if !host.contains(':') {
        law_advertised_url(Seq::empty(), host, port);
    }
}

/// A scheme in front of a host makes no difference to where it is advertised, and neither do slashes
/// behind it.
pub proof fn law_scheme_and_slashes_are_taken_off(host: Seq<char>, slashes: Seq<char>, port: u16)
    requires
        is_bare(host),
        forall|i: int| 0 <= i < slashes.len() ==> #[trigger] slashes[i] == '/',
        host.len() > 0 ==> host.last() != ':',
    ensures
        advertised_url("http://"@ + host + slashes, port) == advertised_url(host, port),
        advertised_url("https://"@ + host + slashes, port) == advertised_url(host, port),
        host.len() > 0 ==> advertised_url(host + slashes, port) == advertised_url(host, port),
{
    reveal_strlit("http://");
    reveal_strlit("https://");
    lemma_bare(host);
    let h = "http://"@ + host + slashes;
    let hs = "https://"@ + host + slashes;
    let tail = host + slashes;
    assert(h.skip(7) =~= tail);
    assert(hs.skip(8) =~= tail);
    assert("http://"@.is_prefix_of(h)) by {
        assert(h.take(7) =~= "http://"@);
    }
    assert("https://"@.is_prefix_of(hs)) by {
        assert(hs.take(8) =~= "https://"@);
    }
    if "http://"@.is_prefix_of(hs) {
        assert("http://"@[4] == hs[4]);
    }
    lemma_slashes_make_no_scheme("http://"@, host, slashes);
    lemma_slashes_make_no_scheme("https://"@, host, slashes);
    assert(text::without_leading(tail, "http://"@) == tail);
    assert(text::without_leading(tail, "https://"@) == tail);
    assert(text::without_leading(h, "http://"@) == tail);
    assert(text::without_leading(hs, "http://"@) == hs);
    assert(text::without_leading(hs, "https://"@) == tail);
    text::law_trailing_run_is_taken_away(host, '/', slashes);
}

/// Slashes behind a host that ends in neither a colon nor a slash do not make a scheme of it.
proof fn lemma_slashes_make_no_scheme(scheme: Seq<char>, host: Seq<char>, slashes: Seq<char>)
    requires
        scheme.len() > 3,
        scheme[0] != '/',
        scheme[scheme.len() - 3] == ':',
        scheme[scheme.len() - 2] == '/',
        scheme[scheme.len() - 1] == '/',
        !scheme.is_prefix_of(host),
        host.len() > 0 ==> host.last() != '/' && host.last() != ':',
        forall|i: int| 0 <= i < slashes.len() ==> #[trigger] slashes[i] == '/',
    ensures
        !scheme.is_prefix_of(host + slashes),
{
    let tail = host + slashes;
    if scheme.is_prefix_of(tail) {
        let n = scheme.len() as int;
        assert(tail.take(n) == scheme);
        assert forall|i: int| 0 <= i < n implies tail[i] == scheme[i] by {
            assert(tail.take(n)[i] == tail[i]);
        }
        if host.len() >= n {
            assert(host.take(n) =~= scheme);
        } else if host.len() == 0 {
            assert(tail[0] == slashes[0]);
        } else {
            assert(tail[host.len() - 1] == host.last());
            assert(tail[n - 3] == ':');
            assert(host.len() - 1 >= n - 3);
        }
    }
}

/// White space around a host makes no difference, and nothing but white space is no host.
pub proof fn law_entered_host(before: Seq<char>, host: Seq<char>, after: Seq<char>)
    requires
        forall|i: int| 0 <= i < before.len() ==> text::white_space(#[trigger] before[i]),
        forall|i: int| 0 <= i < after.len() ==> text::white_space(#[trigger] after[i]),
        host.len() > 0 ==> !text::white_space(host[0]) && !text::white_space(host.last()),
    ensures
        entered(Some(before + host + after)) == if host.len() > 0 {
            Some(host)
        } else {
            None
        },
        entered(None) is None,
{
    text::law_trimming_takes_white_space_away(before, host, after);
}

/// The four numbers of an address can be read from it, in their order.
pub proof fn law_dotted_reads_back(ip: Ipv4)
    ensures
        exists|a: Seq<char>, b: Seq<char>, c: Seq<char>, d: Seq<char>|
            dotted(ip) == #[trigger] joined(a, b, c, d) && text::value_of(a) == ip.a
                && text::value_of(b) == ip.b && text::value_of(c) == ip.c && text::value_of(d)
                == ip.d && !a.contains('.') && !b.contains('.') && !c.contains('.') && !d.contains(
                '.',
            ),
{
    let (a, b) = (text::decimal(ip.a as nat), text::decimal(ip.b as nat));
    let (c, d) = (text::decimal(ip.c as nat), text::decimal(ip.d as nat));
    lemma_byte_has_no_dot(ip.a);
    lemma_byte_has_no_dot(ip.b);
    lemma_byte_has_no_dot(ip.c);
    lemma_byte_has_no_dot(ip.d);
    reveal_strlit(".");
    assert(dotted(ip) =~= joined(a, b, c, d));
}

/// Four texts with a dot between one and the next.
pub open spec fn joined(a: Seq<char>, b: Seq<char>, c: Seq<char>, d: Seq<char>) -> Seq<char> {
    a.push('.') + b.push('.') + c.push('.') + d
}

proof fn lemma_byte_has_no_dot(n: u8)
    ensures
        !text::decimal(n as nat).contains('.'),
        text::value_of(text::decimal(n as nat)) == n,
{
    text::law_decimal_reads_back(n as nat);
    let s = text::decimal(n as nat);
    assert forall|i: int| 0 <= i < s.len() implies s[i] != '.' by {
        assert('0' <= s[i] <= '9');
    }
}

/// Two addresses never look the same.
pub proof fn law_addresses_are_told_apart(x: Ipv4, y: Ipv4)
    requires
        dotted(x) == dotted(y),
    ensures
        x == y,
{
    let (a, b) = (text::decimal(x.a as nat), text::decimal(x.b as nat));
    let (c, d) = (text::decimal(x.c as nat), text::decimal(x.d as nat));
    let (e, f) = (text::decimal(y.a as nat), text::decimal(y.b as nat));
    let (g, h) = (text::decimal(y.c as nat), text::decimal(y.d as nat));
    lemma_byte_has_no_dot(x.a);
    lemma_byte_has_no_dot(x.b);
    lemma_byte_has_no_dot(x.c);
    lemma_byte_has_no_dot(x.d);
    lemma_byte_has_no_dot(y.a);
    lemma_byte_has_no_dot(y.b);
    lemma_byte_has_no_dot(y.c);
    lemma_byte_has_no_dot(y.d);
    reveal_strlit(".");
    assert(dotted(x) =~= (a.push('.') + b.push('.') + c).push('.') + d);
    assert(dotted(y) =~= (e.push('.') + f.push('.') + g).push('.') + h);
    text::lemma_split_at_last(
        a.push('.') + b.push('.') + c,
        d,
        e.push('.') + f.push('.') + g,
        h,
        '.',
    );
    assert(a.push('.') + b.push('.') + c =~= (a.push('.') + b).push('.') + c);
    assert(e.push('.') + f.push('.') + g =~= (e.push('.') + f).push('.') + g);
    text::lemma_split_at_last(a.push('.') + b, c, e.push('.') + f, g, '.');
    text::lemma_split_at_last(a, b, e, f, '.');
}

/// The URLs of distinct addresses stand in their order behind those that were there before.
proof fn lemma_distinct_addresses(urls: Seq<Seq<char>>, ips: Seq<Ipv4>, port: u16)
    requires
        ips.no_duplicates(),
        forall|i: int|
            0 <= i < ips.len() ==> !urls.contains(base_url(dotted(#[trigger] ips[i]), port)),
    ensures
        with_addresses(urls, ips, port) == urls + ips.map_values(
            |ip: Ipv4| base_url(dotted(ip), port),
        ),
    decreases ips.len(),
{
    let f = |ip: Ipv4| base_url(dotted(ip), port);
    if ips.len() == 0 {
        assert(urls + ips.map_values(f) =~= urls);
    } else {
        let before = ips.drop_last();
        assert forall|i: int| 0 <= i < before.len() implies !urls.contains(
            base_url(dotted(#[trigger] before[i]), port),
        ) by {
            assert(before[i] == ips[i]);
        }
        lemma_distinct_addresses(urls, before, port);
        let so_far = urls + before.map_values(f);
        let last = base_url(dotted(ips.last()), port);
        assert(!so_far.contains(last)) by {
            assert(!urls.contains(base_url(dotted(ips[ips.len() - 1]), port)));
            assert forall|i: int| 0 <= i < so_far.len() implies so_far[i] != last by {
                if i < urls.len() {
                    assert(urls.contains(urls[i]));
                } else if so_far[i] == last {
                    let ip = before[i - urls.len()];
                    lemma_same_base_url(dotted(ip), dotted(ips.last()), port);
                    law_addresses_are_told_apart(ip, ips.last());
                    assert(ips[i - urls.len()] == ips[ips.len() - 1]);
                }
            }
        }
        assert(urls + ips.map_values(f) =~= so_far.push(last));
    }
}

proof fn lemma_same_base_url(a: Seq<char>, b: Seq<char>, port: u16)
    requires
        base_url(a, port) == base_url(b, port),
    ensures
        a == b,
{
    let end = ":"@ + text::decimal(port as nat);
    let s = base_url(a, port);
    let t = base_url(b, port);
    assert(s =~= "http://"@ + a + end);
    assert(t =~= "http://"@ + b + end);
    let n = "http://"@.len() as int;
    assert(a.len() == b.len());
    assert(a =~= s.subrange(n, n + a.len()));
    assert(b =~= t.subrange(n, n + a.len()));
}

/// With addresses that are distinct and not the loopback address, and an advertised host that is
/// none of these, the candidates are the advertised host, the addresses in their order, and the
/// loopback address, each as a URL with its port, and nothing else.
pub proof fn law_candidates_in_order(port: u16, host: Option<Seq<char>>, ips: Seq<Ipv4>)
    requires
        ips.no_duplicates(),
        !ips.contains(Ipv4 { a: 127, b: 0, c: 0, d: 1 }),
        host matches Some(h) ==> h.len() > 0 && text::trimmed(h) == h,
        host matches Some(h) ==> forall|i: int|
            0 <= i < ips.len() ==> advertised_url(h, port) != "http://"@ + dotted(
                #[trigger] ips[i],
            ) + ":"@ + text::decimal(port as nat),
        host matches Some(h) ==> advertised_url(h, port) != "http://127.0.0.1:"@ + text::decimal(
            port as nat,
        ),
    ensures
        candidates(port, host, ips) == (match host {
            Some(h) => seq![advertised_url(h, port)],
            None => Seq::empty(),
        }) + ips.map_values(
            |ip: Ipv4| "http://"@ + dotted(ip) + ":"@ + text::decimal(port as nat),
        ) + seq!["http://127.0.0.1:"@ + text::decimal(port as nat)],
{
    let first = match host {
        Some(h) => seq![advertised_url(h, port)],
        None => Seq::empty(),
    };
    lemma_distinct_addresses(first, ips, port);
    let urls = ips.map_values(|ip: Ipv4| base_url(dotted(ip), port));
    assert(urls =~= ips.map_values(
        |ip: Ipv4| "http://"@ + dotted(ip) + ":"@ + text::decimal(port as nat),
    ));
    let own = base_url("127.0.0.1"@, port);
    let loopback = Ipv4 { a: 127, b: 0, c: 0, d: 1 };
    lemma_loopback_text();
    reveal_strlit("http://");
    reveal_strlit("127.0.0.1");
    reveal_strlit(":");
    reveal_strlit("http://127.0.0.1:");
    assert(own =~= "http://127.0.0.1:"@ + text::decimal(port as nat));
    let all = first + urls;
    assert(!all.contains(own)) by {
        assert forall|i: int| 0 <= i < all.len() implies all[i] != own by {
            if i >= first.len() && all[i] == own {
                let ip = ips[i - first.len()];
                lemma_same_base_url(dotted(ip), "127.0.0.1"@, port);
                law_addresses_are_told_apart(ip, loopback);
                assert(ips.contains(ip));
            }
        }
    }
    assert(all + seq![own] =~= all.push(own));
}

proof fn lemma_loopback_text()
    ensures
        dotted(Ipv4 { a: 127, b: 0, c: 0, d: 1 }) == "127.0.0.1"@,
{
    reveal_strlit("127.0.0.1");
    reveal_strlit(".");
    reveal_with_fuel(text::decimal, 4);
    assert(dotted(Ipv4 { a: 127, b: 0, c: 0, d: 1 }) =~= "127.0.0.1"@);
}

/// A URL is a candidate only if it is that of the advertised host, of an address of the machine, or
/// of the loopback address.
pub proof fn law_candidates_are_nothing_else(
    port: u16,
    host: Option<Seq<char>>,
    ips: Seq<Ipv4>,
    url: Seq<char>,
)
    requires
        candidates(port, host, ips).contains(url),
    ensures
        (entered(host) matches Some(h) && url == advertised_url(h, port)) || (exists|i: int|
            0 <= i < ips.len() && url == "http://"@ + dotted(#[trigger] ips[i]) + ":"@
                + text::decimal(port as nat)) || url == "http://127.0.0.1:"@ + text::decimal(
            port as nat,
        ),
{
    let first = match entered(host) {
        Some(h) => seq![advertised_url(h, port)],
        None => Seq::empty(),
    };
    reveal_strlit("http://");
    reveal_strlit("127.0.0.1");
    reveal_strlit(":");
    reveal_strlit("http://127.0.0.1:");
    assert(base_url("127.0.0.1"@, port) =~= "http://127.0.0.1:"@ + text::decimal(port as nat));
    let all = with_addresses(first, ips, port);
    if url != base_url("127.0.0.1"@, port) {
        let i = candidates(port, host, ips).index_of(url);
        assert(all[i] == url);
        assert(all.contains(url));
        lemma_address_of(first, ips, port, url);
    }
}

proof fn lemma_address_of(urls: Seq<Seq<char>>, ips: Seq<Ipv4>, port: u16, url: Seq<char>)
    requires
        with_addresses(urls, ips, port).contains(url),
    ensures
        urls.contains(url) || exists|i: int|
            0 <= i < ips.len() && url == base_url(dotted(#[trigger] ips[i]), port),
    decreases ips.len(),
{
    if ips.len() > 0 {
        let before = with_addresses(urls, ips.drop_last(), port);
        if url == base_url(dotted(ips.last()), port) {
            assert(ips[ips.len() - 1] == ips.last());
        } else {
            let i = with_addresses(urls, ips, port).index_of(url);
            assert(before[i] == url);
            assert(before.contains(url));
            lemma_address_of(urls, ips.drop_last(), port, url);
            if !urls.contains(url) {
                let k = choose|k: int|
                    0 <= k < ips.drop_last().len() && url == base_url(
                        dotted(#[trigger] ips.drop_last()[k]),
                        port,
                    );
                assert(ips[k] == ips.drop_last()[k]);
            }
        }
    }
}

/// The URL to share is that of the advertised host; where none was entered, that of the public
/// address, at the port that the peer listens on.
pub proof fn law_suggested_url(port: u16, host: Seq<char>, ip: Ipv4)
    requires
        host.len() > 0,
        text::trimmed(host) == host,
    ensures
        suggested_url(port, Some(host), Some(ip)) == Some(advertised_url(host, port)),
        suggested_url(port, Some(host), None) == Some(advertised_url(host, port)),
        suggested_url(port, None, Some(ip)) == Some(
            "http://"@ + dotted(ip) + ":"@ + text::decimal(port as nat),
        ),
        suggested_url(port, None, None) is None,
{
}

/// Of the addresses found, those are kept, each once, that are neither loopback addresses nor the
/// unspecified one.
pub proof fn law_outward_addresses(found: Seq<Ipv4>, ip: Ipv4)
    ensures
        outward(found).contains(ip) <==> found.contains(ip) && ip.a != 127 && ip != (Ipv4 {
            a: 0,
            b: 0,
            c: 0,
            d: 0,
        }),
        outward(found).no_duplicates(),
        outward(found).len() <= found.len(),
    decreases found.len(),
{
    if found.len() > 0 {
        let last = found.last();
        law_outward_addresses(found.drop_last(), ip);
        law_outward_addresses(found.drop_last(), last);
        let before = outward(found.drop_last());
        assert(found =~= found.drop_last().push(last));
        if found.drop_last().contains(ip) {
            let i = found.drop_last().index_of(ip);
            assert(found[i] == ip);
        }
        if found.contains(ip) && ip != last {
            let i = found.index_of(ip);
            assert(found.drop_last()[i] == ip);
        }
        assert(found[found.len() - 1] == last);
        if is_outward(last) && !before.contains(last) {
            let all = before.push(last);
            assert(all[before.len() as int] == last);
            if before.contains(ip) {
                assert(all[before.index_of(ip)] == ip);
            }
            if all.contains(ip) && ip != last {
                assert(before[all.index_of(ip)] == ip);
            }
        }
    }
}

/// Addresses that are outward and distinct are kept in the order in which they were found.
pub proof fn law_outward_addresses_keep_order(found: Seq<Ipv4>)
    requires
        found.no_duplicates(),
        forall|i: int|
            0 <= i < found.len() ==> (#[trigger] found[i]).a != 127 && found[i] != (Ipv4 {
                a: 0,
                b: 0,
                c: 0,
                d: 0,
            }),
    ensures
        outward(found) == found,
    decreases found.len(),
{
    if found.len() == 0 {
        assert(found =~= Seq::empty());
    } else {
        let before = found.drop_last();
        assert forall|i: int| 0 <= i < before.len() implies (#[trigger] before[i]).a != 127
            && before[i] != (Ipv4 { a: 0, b: 0, c: 0, d: 0 }) by {
            assert(before[i] == found[i]);
        }
        law_outward_addresses_keep_order(before);
        assert(found[found.len() - 1] == found.last());
        assert(!before.contains(found.last())) by {
            assert forall|i: int| 0 <= i < before.len() implies before[i] != found.last() by {
                assert(found[i] != found[found.len() - 1]);
            }
        }
        assert(found =~= before.push(found.last()));
    }
}

/// The number of two bytes, the higher first.
pub open spec fn big_endian(high: u8, low: u8) -> nat {
    high as nat * 256 + low as nat
}

/// An attribute of a STUN message.
pub struct Attribute {
    pub kind: nat,
    pub value: Seq<u8>,
}

/// The attributes that follow one another in bytes, each padded to a multiple of four bytes, up to
/// the first that is cut short.
pub open spec fn attributes(bytes: Seq<u8>) -> Seq<Attribute>
    decreases bytes.len(),
{
    if bytes.len() < 4 {
        Seq::empty()
    } else {
        let len = big_endian(bytes[2], bytes[3]);
        if 4 + len > bytes.len() {
            Seq::empty()
        } else {
            let padded = (len + 3) / 4 * 4;
            let rest = if 4 + padded < bytes.len() {
                bytes.skip((4 + padded) as int)
            } else {
                Seq::empty()
            };
            seq![
                Attribute {
                    kind: big_endian(bytes[0], bytes[1]),
                    value: bytes.subrange(4, (4 + len) as int),
                },
            ] + attributes(rest)
        }
    }
}

/// The address that an attribute holds: that of a mapped address (kind 1), or of one that is
/// masked with the magic cookie (kind 32), if it is an IPv4 address.
pub open spec fn mapped_address(attribute: Attribute) -> Option<Ipv4> {
    let value = attribute.value;
    if value.len() < 8 || value[1] != 1 {
        None
    } else if attribute.kind == 1 {
        Some(Ipv4 { a: value[4], b: value[5], c: value[6], d: value[7] })
    } else if attribute.kind == 32 {
        Some(
            Ipv4 {
                a: value[4] ^ 0x21,
                b: value[5] ^ 0x12,
                c: value[6] ^ 0xa4,
                d: value[7] ^ 0x42,
            },
        )
    } else {
        None
    }
}

/// The first address that attributes hold.
pub open spec fn first_mapped(attributes: Seq<Attribute>) -> Option<Ipv4>
    decreases attributes.len(),
{
    if attributes.len() == 0 {
        None
    } else {
        match mapped_address(attributes[0]) {
            Some(ip) => Some(ip),
            None => first_mapped(attributes.skip(1)),
        }
    }
}

/// An address that a server masks with the magic cookie is read back, whatever the header and the
/// port.
pub proof fn law_masked_address_is_read(header: Seq<u8>, port: (u8, u8), ip: Ipv4)
    requires
        header.len() == 20,
    ensures
        ({
            let attribute = seq![
                0u8,
                32,
                0,
                8,
                0,
                1,
                port.0,
                port.1,
                ip.a ^ 0x21,
                ip.b ^ 0x12,
                ip.c ^ 0xa4,
                ip.d ^ 0x42,
            ];
            first_mapped(attributes((header + attribute).skip(20))) == Some(ip)
        }),
{
    let attribute = seq![
        0u8,
        32,
        0,
        8,
        0,
        1,
        port.0,
        port.1,
        ip.a ^ 0x21,
        ip.b ^ 0x12,
        ip.c ^ 0xa4,
        ip.d ^ 0x42,
    ];
    let (a, b, c, d) = (ip.a, ip.b, ip.c, ip.d);
    assert((header + attribute).skip(20) =~= attribute);
    assert((a ^ 0x21) ^ 0x21 == a && (b ^ 0x12) ^ 0x12 == b && (c ^ 0xa4) ^ 0xa4 == c && (d ^ 0x42)
        ^ 0x42 == d) by (bit_vector);
    assert(attributes(attribute)[0] == (Attribute { kind: 32, value: attribute.subrange(4, 12) }));
}

/// An address that a server does not mask is read as it is.
pub proof fn law_plain_address_is_read(port: (u8, u8), ip: Ipv4, rest: Seq<u8>)
    ensures
        first_mapped(
            attributes(
                seq![0u8, 1, 0, 8, 0, 1, port.0, port.1, ip.a, ip.b, ip.c, ip.d] + rest,
            ),
        ) == Some(ip),
{
    let bytes = seq![0u8, 1, 0, 8, 0, 1, port.0, port.1, ip.a, ip.b, ip.c, ip.d] + rest;
    let value = bytes.subrange(4, 12);
    assert(attributes(bytes)[0] == (Attribute { kind: 1, value }));
    assert(value[4] == ip.a && value[5] == ip.b && value[6] == ip.c && value[7] == ip.d);
}

/// A masked address is read, whatever follows it.
pub proof fn law_masked_address_is_read_first(port: (u8, u8), ip: Ipv4, rest: Seq<u8>)
    ensures
        first_mapped(
            attributes(
                seq![
                    0u8,
                    32,
                    0,
                    8,
                    0,
                    1,
                    port.0,
                    port.1,
                    ip.a ^ 0x21,
                    ip.b ^ 0x12,
                    ip.c ^ 0xa4,
                    ip.d ^ 0x42,
                ] + rest,
            ),
        ) == Some(ip),
{
    let (a, b, c, d) = (ip.a, ip.b, ip.c, ip.d);
    let bytes = seq![
        0u8,
        32,
        0,
        8,
        0,
        1,
        port.0,
        port.1,
        a ^ 0x21,
        b ^ 0x12,
        c ^ 0xa4,
        d ^ 0x42,
    ] + rest;
    let value = bytes.subrange(4, 12);
    assert((a ^ 0x21) ^ 0x21 == a && (b ^ 0x12) ^ 0x12 == b && (c ^ 0xa4) ^ 0xa4 == c && (d ^ 0x42)
        ^ 0x42 == d) by (bit_vector);
    assert(attributes(bytes)[0] == (Attribute { kind: 32, value }));
    assert(value[4] == a ^ 0x21 && value[5] == b ^ 0x12 && value[6] == c ^ 0xa4 && value[7] == d
        ^ 0x42);
}

/// Where an attribute is cut short, nothing is read from it or behind it.
pub proof fn law_cut_attribute_is_not_read(bytes: Seq<u8>)
    requires
        bytes.len() < 4 || 4 + bytes[2] * 256 + bytes[3] > bytes.len(),
    ensures
        first_mapped(attributes(bytes)) is None,
{
}

/// An attribute of another kind, or one that holds no IPv4 address, is passed over with its padding,
/// whatever it holds: what follows it is read.
pub proof fn law_other_attributes_are_passed_over(
    high: u8,
    low: u8,
    value: Seq<u8>,
    padding: Seq<u8>,
    rest: Seq<u8>,
)
    requires
        value.len() < 65536,
        (value.len() + padding.len()) % 4 == 0,
        padding.len() < 4,
        !(high == 0 && (low == 1 || low == 32)) || value.len() < 8 || value[1] != 1,
    ensures
        first_mapped(
            attributes(
                seq![high, low, (value.len() / 256) as u8, (value.len() % 256) as u8] + value
                    + padding + rest,
            ),
        ) == first_mapped(attributes(rest)),
{
    let head = seq![high, low, (value.len() / 256) as u8, (value.len() % 256) as u8];
    let bytes = head + value + padding + rest;
    let len = big_endian(bytes[2], bytes[3]);
    assert(len == value.len());
    let padded = (len + 3) / 4 * 4;
    assert(padded == value.len() + padding.len());
    assert(bytes.subrange(4, (4 + len) as int) =~= value);
    assert(big_endian(high, low) == 1 || big_endian(high, low) == 32 ==> high == 0);
    if rest.len() > 0 {
        assert(bytes.skip((4 + padded) as int) =~= rest);
    } else {
        assert(rest =~= Seq::empty());
    }
    let all = attributes(bytes);
    let first = Attribute { kind: big_endian(high, low), value };
    assert(all == seq![first] + attributes(rest));
    assert(all.skip(1) =~= attributes(rest));
    assert(mapped_address(first) is None);
}

/// The address that a STUN response holds behind its header of 20 bytes.
pub fn parse_stun_xor_mapped_v4(msg: &[u8]) -> (r: Option<Ipv4>)
    ensures
        r == if msg@.len() < 20 {
            None
        } else {
            first_mapped(attributes(msg@.skip(20)))
        },
{
    if msg.len() < 20 {
        return None;
    }
    let mut i: usize = 20;
    let ghost mut rest = msg@.skip(20);
    while i < msg.len() && msg.len() - i >= 4
        invariant
            msg@.len() >= 20,
            rest == if i < msg@.len() {
                msg@.skip(i as int)
            } else {
                Seq::empty()
            },
            first_mapped(attributes(rest)) == first_mapped(attributes(msg@.skip(20))),
        decreases msg@.len() - i,
    {
        let kind: usize = msg[i] as usize * 256 + msg[i + 1] as usize;
        let len: usize = msg[i + 2] as usize * 256 + msg[i + 3] as usize;
        if len > msg.len() - i - 4 {
            return None;
        }
        let padded: usize = (len + 3) / 4 * 4;
        let ghost attribute = attributes(rest)[0];
        let ghost next = if 4 + padded < rest.len() {
            rest.skip(4 + padded)
        } else {
            Seq::empty()
        };
        assert(attribute.value =~= msg@.subrange(i + 4, i + 4 + len));
        assert(attributes(rest).skip(1) =~= attributes(next));
        if len >= 8 && msg[i + 5] == 1 {
            let (a, b, c, d) = (msg[i + 8], msg[i + 9], msg[i + 10], msg[i + 11]);
            if kind == 1 {
                return Some(Ipv4 { a, b, c, d });
            }
            if kind == 32 {
                return Some(Ipv4 { a: a ^ 0x21, b: b ^ 0x12, c: c ^ 0xa4, d: d ^ 0x42 });
            }
        }
        assert(mapped_address(attribute) is None);
        assert(first_mapped(attributes(rest)) == first_mapped(attributes(next)));
        if padded >= msg.len() - i - 4 {
            return None;
        }
        proof {
            assert(next =~= msg@.skip(i + 4 + padded));
            rest = next;
        }
        i = i + 4 + padded;
    }
    None
}

/// The STUN request that asks for the public address: a binding request with the magic cookie and
/// a transaction identifier.
pub open spec fn stun_request_bytes(transaction: Seq<u8>) -> Seq<u8> {
    seq![0x00u8, 0x01, 0x00, 0x00, 0x21, 0x12, 0xa4, 0x42] + transaction
}

/// A request is 20 bytes: type 1, no attributes, the magic cookie, and the transaction identifier.
pub proof fn law_stun_request(transaction: Seq<u8>)
    requires
        transaction.len() == 12,
    ensures
        ({
            let r = stun_request_bytes(transaction);
            &&& r.len() == 20
            &&& big_endian(r[0], r[1]) == 1
            &&& big_endian(r[2], r[3]) == 0
            &&& r.subrange(4, 8) == seq![0x21u8, 0x12, 0xa4, 0x42]
            &&& r.skip(8) == transaction
        }),
{
    let r = stun_request_bytes(transaction);
    assert(r.subrange(4, 8) =~= seq![0x21u8, 0x12, 0xa4, 0x42]);
    assert(r.skip(8) =~= transaction);
}

/// The STUN request with a transaction identifier.
pub fn stun_request_with(transaction: &[u8; 12]) -> (r: Vec<u8>)
    ensures
        r@ == stun_request_bytes(transaction@),
{
    let mut request: Vec<u8> = vec![0x00, 0x01, 0x00, 0x00, 0x21, 0x12, 0xa4, 0x42];
    request.extend_from_slice(transaction);
    assert(request@ =~= stun_request_bytes(transaction@));
    request
}

/// A STUN request with a transaction identifier drawn for it.
pub fn stun_request() -> (r: Vec<u8>)
    ensures
        exists|transaction: Seq<u8>|
            transaction.len() == 12 && r@ == #[trigger] stun_request_bytes(transaction),
{
    let transaction = random_transaction();
    assert(transaction@.len() == 12);
    stun_request_with(&transaction)
}

/// `rand::RngCore::fill_bytes` with `rand::thread_rng`: 12 bytes from the generator of the thread.
/// Nothing is claimed of them. Where the operating system gives no seed, the call panics.
#[verifier::external_body]
fn random_transaction() -> (transaction: [u8; 12]) {
    let mut transaction = [0u8; 12];
    rand::thread_rng().fill_bytes(&mut transaction);
    transaction
}

} // verus!
