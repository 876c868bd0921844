//! The startup banner: where the library is and the URLs it is served at.
use crate::config::Settings;
use crate::paths::strings_view;
use crate::text::{decimal, ipv4_text, push_decimal, push_ipv4};
use vstd::prelude::*;
use vstd::string::*;

verus! {

/// `    <scheme>://<host>:<port>`.
pub open spec fn url_line(scheme: Seq<char>, host: Seq<char>, port: u16) -> Seq<char> {
    "    "@ + scheme + "://"@ + host + seq![':'] + decimal(port as nat)
}

/// A listener's block: its title, its `localhost` URL, then one URL per
/// address, in the order given.
pub open spec fn listener_section(title: Seq<char>, scheme: Seq<char>, port: u16, ips: Seq<u32>) -> Seq<
    Seq<char>,
> {
    seq![title, url_line(scheme, "localhost"@, port)] + ips.map_values(
        |a: u32| url_line(scheme, ipv4_text(a), port),
    )
}

/// The banner's lines: the library, then the HTTPS block when HTTPS is on,
/// then the HTTP block when HTTP is on, then the closing hint.
pub open spec fn banner_text(library: Seq<char>, settings: Settings, ips: Seq<u32>) -> Seq<
    Seq<char>,
> {
    seq![""@, "  Gausify Server"@, "  Serving library:"@, "    "@ + library, ""@] + (if settings.https {
        listener_section("  HTTPS:"@, "https"@, settings.https_port, ips)
    } else {
        Seq::empty()
    }) + (if settings.http {
        listener_section("  HTTP:"@, "http"@, settings.http_port, ips)
    } else {
        Seq::empty()
    }) + seq![
        ""@,
        "  Paste an HTTPS URL above into the Gausify gallery. Ctrl-C to stop."@,
        ""@,
    ]
}

/// The banner is the library lines, the listener blocks and the closing
/// hint, nothing else. With HTTPS on, the HTTPS block comes right after the
/// library lines and gives `https://localhost:<port>` and then, for every announced
/// address in order, `https://<address>:<port>`, whether or not HTTP is on;
/// with HTTP on, the HTTP block follows it (or takes its place) and does the
/// same with `http://`.
pub proof fn lemma_banner_lists_every_address(library: Seq<char>, settings: Settings, ips: Seq<u32>)
    ensures
        ({
            let b = banner_text(library, settings, ips);
            let h: int = if settings.https {
                ips.len() + 2int
            } else {
                0int
            };
            let t: int = if settings.http {
                ips.len() + 2int
            } else {
                0int
            };
            &&& b.len() == 8 + h + t
            &&& b[0] == ""@
            &&& b[1] == "  Gausify Server"@
            &&& b[2] == "  Serving library:"@
            &&& b[3] == "    "@ + library
            &&& b[4] == ""@
            &&& b[b.len() - 3] == ""@
            &&& b[b.len() - 2] == "  Paste an HTTPS URL above into the Gausify gallery. Ctrl-C to stop."@
            &&& b[b.len() - 1] == ""@
        }),
        settings.https ==> {
            let b = banner_text(library, settings, ips);
            &&& b.len() >= 7 + ips.len()
            &&& b[5] == "  HTTPS:"@
            &&& b[6] == "    https://localhost:"@ + decimal(settings.https_port as nat)
            &&& forall|i: int|
                0 <= i < ips.len() ==> #[trigger] b[7 + i] == "    https://"@ + ipv4_text(ips[i])
                    + ":"@ + decimal(settings.https_port as nat)
        },
        settings.http ==> {
            let b = banner_text(library, settings, ips);
            let o: int = if settings.https {
                ips.len() + 2int
            } else {
                0int
            };
            &&& b.len() >= 7 + o + ips.len()
            &&& b[5 + o] == "  HTTP:"@
            &&& b[6 + o] == "    http://localhost:"@ + decimal(settings.http_port as nat)
            &&& forall|i: int|
                0 <= i < ips.len() ==> #[trigger] b[7 + o + i] == "    http://"@ + ipv4_text(ips[i])
                    + ":"@ + decimal(settings.http_port as nat)
        },
{
    reveal_strlit("    ");
    reveal_strlit("://");
    reveal_strlit(":");
    reveal_strlit("https");
    reveal_strlit("http");
    reveal_strlit("localhost");
    reveal_strlit("    https://");
    reveal_strlit("    http://");
    reveal_strlit("    https://localhost:");
    reveal_strlit("    http://localhost:");
    let b = banner_text(library, settings, ips);
    let head = seq![""@, "  Gausify Server"@, "  Serving library:"@, "    "@ + library, ""@];
    let hs = listener_section("  HTTPS:"@, "https"@, settings.https_port, ips);
    let ht = listener_section("  HTTP:"@, "http"@, settings.http_port, ips);
    assert forall|scheme: Seq<char>, host: Seq<char>, port: u16|
        #[trigger] url_line(scheme, host, port) == "    "@ + scheme + "://"@ + host + ":"@ + decimal(
            port as nat,
        ) by {
        assert(seq![':'] =~= ":"@);
    }
    assert("    "@ + "https"@ + "://"@ =~= "    https://"@);
    assert("    "@ + "http"@ + "://"@ =~= "    http://"@);
    assert forall|h: Seq<char>, p: u16|
        #![trigger url_line("https"@, h, p)]
        url_line("https"@, h, p) == "    https://"@ + h + ":"@ + decimal(p as nat) by {
        assert("    "@ + "https"@ + "://"@ + h + ":"@ + decimal(p as nat) =~= "    https://"@ + h
            + ":"@ + decimal(p as nat));
    }
    assert forall|h: Seq<char>, p: u16|
        #![trigger url_line("http"@, h, p)]
        url_line("http"@, h, p) == "    http://"@ + h + ":"@ + decimal(p as nat) by {
        assert("    "@ + "http"@ + "://"@ + h + ":"@ + decimal(p as nat) =~= "    http://"@ + h
            + ":"@ + decimal(p as nat));
    }
    assert("    https://"@ + "localhost"@ + ":"@ =~= "    https://localhost:"@);
    assert("    http://"@ + "localhost"@ + ":"@ =~= "    http://localhost:"@);
    let hs2 = if settings.https {
        hs
    } else {
        Seq::empty()
    };
    let ht2 = if settings.http {
        ht
    } else {
        Seq::empty()
    };
    let tail = seq![
        ""@,
        "  Paste an HTTPS URL above into the Gausify gallery. Ctrl-C to stop."@,
        ""@,
    ];
    assert(b == head + hs2 + ht2 + tail);
    if settings.https {
        assert forall|i: int| 0 <= i < ips.len() implies #[trigger] b[7 + i] == "    https://"@
            + ipv4_text(ips[i]) + ":"@ + decimal(settings.https_port as nat) by {
            assert(b[7 + i] == hs[2 + i]);
            assert(hs[2 + i] == url_line("https"@, ipv4_text(ips[i]), settings.https_port));
        }
        assert(b[6] == hs[1]);
        assert(hs[1] == url_line("https"@, "localhost"@, settings.https_port));
        assert("    https://"@ + "localhost"@ + ":"@ + decimal(settings.https_port as nat)
            =~= "    https://localhost:"@ + decimal(settings.https_port as nat));
    }
    if settings.http {
        let o: int = hs2.len() as int;
        assert forall|i: int| 0 <= i < ips.len() implies #[trigger] b[7 + o + i] == "    http://"@
            + ipv4_text(ips[i]) + ":"@ + decimal(settings.http_port as nat) by {
            assert(b[7 + o + i] == ht[2 + i]);
            assert(ht[2 + i] == url_line("http"@, ipv4_text(ips[i]), settings.http_port));
        }
        assert(b[6 + o] == ht[1]);
        assert(ht[1] == url_line("http"@, "localhost"@, settings.http_port));
        assert("    http://"@ + "localhost"@ + ":"@ + decimal(settings.http_port as nat)
            =~= "    http://localhost:"@ + decimal(settings.http_port as nat));
    }
}

fn url_string(scheme: &str, ip: Option<u32>, port: u16) -> (s: String)
    ensures
        s@ == url_line(
            scheme@,
            match ip {
                None => "localhost"@,
                Some(a) => ipv4_text(a),
            },
            port,
        ),
{
    let mut s = String::from_str("    ");
    s.append(scheme);
    s.append("://");
    match ip {
        None => s.append("localhost"),
        Some(a) => push_ipv4(&mut s, a),
    }
    proof {
        reveal_strlit(":");
    }
    s.append(":");
    push_decimal(&mut s, port as u64);
    let ghost host = match ip {
        None => "localhost"@,
        Some(a) => ipv4_text(a),
    };
    assert(s@ =~= url_line(scheme@, host, port));
    s
}

fn push_line(lines: &mut Vec<String>, text: &str)
    ensures
        strings_view(final(lines)@) == strings_view(old(lines)@).push(text@),
{
    push_string(lines, String::from_str(text));
}

fn push_string(lines: &mut Vec<String>, text: String)
    ensures
        strings_view(final(lines)@) == strings_view(old(lines)@).push(text@),
{
    let ghost t = text@;
    lines.push(text);
    assert(strings_view(lines@) =~= strings_view(old(lines)@).push(t));
}

fn push_section(lines: &mut Vec<String>, title: &str, scheme: &str, port: u16, ips: &Vec<u32>)
    ensures
        strings_view(final(lines)@) == strings_view(old(lines)@) + listener_section(
            title@,
            scheme@,
            port,
            ips@,
        ),
{
    push_line(lines, title);
    push_string(lines, url_string(scheme, None, port));
    let ghost start = strings_view(lines@);
    let ghost f = |a: u32| url_line(scheme@, ipv4_text(a), port);
    assert(start =~= strings_view(old(lines)@) + seq![title@, url_line(scheme@, "localhost"@, port)]);
    let n = ips.len();
    for i in 0..n
        invariant
            n == ips@.len(),
            strings_view(lines@) == start + ips@.take(i as int).map_values(f),
            f == (|a: u32| url_line(scheme@, ipv4_text(a), port)),
    {
        let ghost before = strings_view(lines@);
        let u = url_string(scheme, Some(ips[i]), port);
        assert(u@ == f(ips@[i as int]));
        push_string(lines, u);
        assert(ips@.take(i + 1).map_values(f) =~= ips@.take(i as int).map_values(f).push(
            f(ips@[i as int]),
        ));
        assert(strings_view(lines@) =~= start + ips@.take(i + 1).map_values(f));
    }
    assert(ips@.take(n as int) =~= ips@);
    assert(strings_view(lines@) =~= strings_view(old(lines)@) + listener_section(
        title@,
        scheme@,
        port,
        ips@,
    ));
}

/// The banner printed at startup, one string per line: `library` is how the
/// library path displays, `ips` the announced addresses.
pub fn banner_lines(library: &str, settings: &Settings, ips: &Vec<u32>) -> (r: Vec<String>)
    ensures
        strings_view(r@) == banner_text(library@, *settings, ips@),
{
    let mut lines: Vec<String> = Vec::new();
    push_line(&mut lines, "");
    push_line(&mut lines, "  Gausify Server");
    push_line(&mut lines, "  Serving library:");
    let mut lib_line = String::from_str("    ");
    lib_line.append(library);
    push_string(&mut lines, lib_line);
    push_line(&mut lines, "");
    let ghost head = strings_view(lines@);
    assert(head =~= seq![""@, "  Gausify Server"@, "  Serving library:"@, "    "@ + library@, ""@]);
    if settings.https {
        push_section(&mut lines, "  HTTPS:", "https", settings.https_port, ips);
    }
    let ghost mid = strings_view(lines@);
    if settings.http {
        push_section(&mut lines, "  HTTP:", "http", settings.http_port, ips);
    }
    let ghost tail_start = strings_view(lines@);
    push_line(&mut lines, "");
    push_line(&mut lines, "  Paste an HTTPS URL above into the Gausify gallery. Ctrl-C to stop.");
    push_line(&mut lines, "");
    assert(strings_view(lines@) =~= banner_text(library@, *settings, ips@));
    lines
}

} // verus!
