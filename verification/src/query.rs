//! The query tool's own logic: the filter it sends, how it reads its master and protocol
//! lists, and the lines it prints for servers.

use vstd::prelude::*;
use vstd::string::StringSliceAdditionalSpecFns;
use vstd::string::StrSliceExecFns;

use crate::addr_text::{parse_socket_addr, parse_socket_addr_exec, push_socket_addr, socket_addr_text};
use crate::filter::{client_version, default_client_version, version_text, Version};
use crate::net::{sorted_unique, strictly_sorted, SocketAddr};
use crate::observer::filter_pair;
use crate::text::{dec, parse_dec_u8, push_dec};
use crate::udp_server::{lemma_split_on_len, split_on, split_on_exec, string_bytes};

verus! {

/// The build number that queries claim by default.
pub const DEFAULT_CLIENT_BUILDNUM: u32 = 4000;

/// The port of a master server given without one.
pub const DEFAULT_MASTER_PORT: u16 = 27010;

/// `protocol`
pub open spec fn protocol_word() -> Seq<u8> {
    seq![112u8, 114u8, 111u8, 116u8, 111u8, 99u8, 111u8, 108u8]
}

/// `map`
pub open spec fn map_word() -> Seq<u8> {
    seq![109u8, 97u8, 112u8]
}

/// The socket address that `text` names, where it names one.
pub open spec fn parsed_addr(text: String) -> Option<SocketAddr> {
    parse_socket_addr(string_bytes(text))
}

/// Some item of `servers` names no socket address.
pub open spec fn some_address_invalid(servers: Seq<String>) -> bool {
    exists|i: int| 0 <= i < servers.len() && (#[trigger] parsed_addr(servers[i])) is None
}

/// `list` holds the addresses that `servers` names, each once, in the order of socket
/// addresses.
pub open spec fn server_list_of(servers: Seq<String>, list: Seq<SocketAddr>) -> bool {
    &&& strictly_sorted(list)
    &&& forall|a: SocketAddr| #[trigger] list.contains(a) <==> exists|i: int|
        0 <= i < servers.len() && #[trigger] parsed_addr(servers[i]) == Some(a)
}

/// Reads the server addresses given on the command line: `None` where one of them is no
/// socket address, else each address once, in the order of socket addresses.
pub fn parse_server_addresses(servers: &[String]) -> (r: Option<Vec<SocketAddr>>)
    ensures
        r is None <==> some_address_invalid(servers@),
        r matches Some(list) ==> server_list_of(servers@, list@),
{
    let mut list: Vec<SocketAddr> = Vec::new();
    let n = servers.len();
    for i in 0..n
        invariant
            n == servers@.len(),
            list@.len() == i,
            forall|k: int| 0 <= k < i ==> #[trigger] parsed_addr(servers@[k]) == Some(list@[k]),
    {
        match parse_socket_addr_exec(servers[i].as_str().as_bytes()) {
            Some(a) => list.push(a),
            None => {
                assert(parsed_addr(servers@[i as int]) is None);
                return None;
            },
        }
    }
    let r = sorted_unique(list.as_slice());
    proof {
        assert forall|a: SocketAddr| #[trigger] r@.contains(a) <==> exists|i: int|
            0 <= i < servers@.len() && #[trigger] parsed_addr(servers@[i]) == Some(a) by {
            if r@.contains(a) {
                let k = choose|k: int| 0 <= k < list@.len() && list@[k] == a;
                assert(parsed_addr(servers@[k]) == Some(a));
            }
            if exists|i: int| 0 <= i < servers@.len() && #[trigger] parsed_addr(servers@[i]) == Some(a) {
                let i = choose|i: int| 0 <= i < servers@.len() && #[trigger] parsed_addr(servers@[i]) == Some(a);
                assert(list@[i] == a);
                assert(list@.contains(a));
            }
        }
    }
    Some(r)
}

/// The plain listing of servers: each address on a line of its own.
pub open spec fn address_lines(addrs: Seq<SocketAddr>) -> Seq<u8>
    decreases addrs.len(),
{
    if addrs.len() == 0 {
        Seq::empty()
    } else {
        address_lines(addrs.drop_last()) + socket_addr_text(addrs.last()) + seq![10u8]
    }
}

/// The plain listing of servers: each address on a line of its own.
pub fn print_address_lines(addrs: &[SocketAddr]) -> (r: Vec<u8>)
    ensures
        r@ == address_lines(addrs@),
{
    let mut out: Vec<u8> = Vec::new();
    let n = addrs.len();
    for i in 0..n
        invariant
            n == addrs@.len(),
            out@ == address_lines(addrs@.take(i as int)),
    {
        assert(addrs@.take(i + 1).drop_last() =~= addrs@.take(i as int));
        assert(addrs@.take(i + 1).last() == addrs@[i as int]);
        push_socket_addr(&mut out, &addrs[i]);
        out.push(10);
        assert(out@ =~= address_lines(addrs@.take(i + 1)));
    }
    assert(addrs@.take(n as int) =~= addrs@);
    out
}

/// The filter settings of a query.
#[derive(Clone, Debug)]
pub struct QueryFilter {
    pub clver: Option<Version>,
    pub buildnum: Option<u32>,
    pub protocol: Option<u8>,
    pub gamedir: Option<String>,
    pub map: Option<String>,
}

/// The numeric pairs of filter settings: client version, build number and protocol, those
/// that are set.
pub open spec fn numbers_text(f: QueryFilter) -> Seq<u8> {
    filter_pair(crate::observer::clver_word(), match f.clver {
        Some(v) => Some(version_text(v)),
        None => None,
    }) + filter_pair(crate::observer::buildnum_word(), match f.buildnum {
        Some(n) => Some(dec(n as nat)),
        None => None,
    }) + filter_pair(protocol_word(), match f.protocol {
        Some(p) => Some(dec(p as nat)),
        None => None,
    })
}

/// The text pairs of filter settings: game directory and map, those that are set.
pub open spec fn strings_text(f: QueryFilter) -> Seq<u8> {
    filter_pair(crate::observer::gamedir_word(), match f.gamedir {
        Some(g) => Some(string_bytes(g)),
        None => None,
    }) + filter_pair(map_word(), match f.map {
        Some(m) => Some(string_bytes(m)),
        None => None,
    })
}

/// The text of filter settings: the pairs that are set, in the order client version, build
/// number, protocol, game directory, map.
pub open spec fn query_filter_text(f: QueryFilter) -> Seq<u8> {
    numbers_text(f) + strings_text(f)
}

/// Whether `pat` occurs in `s`.
pub open spec fn contains_sub(s: Seq<u8>, pat: Seq<u8>) -> bool {
    exists|i: int| 0 <= i && i + pat.len() <= s.len() && #[trigger] s.subrange(i, i + pat.len()) == pat
}

/// Whether `pat` occurs in `s`.
pub fn contains_bytes(s: &[u8], pat: &[u8]) -> (r: bool)
    ensures
        r == contains_sub(s@, pat@),
{
    if pat.len() > s.len() {
        return false;
    }
    let n = s.len();
    let last = n - pat.len();
    let mut i: usize = 0;
    while i <= last
        invariant
            pat@.len() <= s@.len(),
            last == s@.len() - pat@.len(),
            n == s@.len(),
            i <= last + 1,
            forall|j: int| 0 <= j < i ==> #[trigger] s@.subrange(j, j + pat@.len()) != pat@,
        decreases s.len() - i,
    {
        let mut k: usize = 0;
        let mut same = true;
        while k < pat.len()
            invariant
                i <= last,
                last == s@.len() - pat@.len(),
                pat@.len() <= s@.len(),
                i + pat@.len() <= s@.len(),
                n == s@.len(),
                k <= pat@.len(),
                same == forall|m: int| 0 <= m < k ==> s@[i + m] == pat@[m],
            decreases pat.len() - k,
        {
            if s[i + k] != pat[k] {
                same = false;
            }
            k = k + 1;
        }
        if same {
            assert(s@.subrange(i as int, i + pat@.len()) =~= pat@);
            return true;
        }
        assert(s@.subrange(i as int, i + pat@.len()) != pat@) by {
            let m = choose|m: int| 0 <= m < pat@.len() && s@[i + m] != pat@[m];
            assert(s@.subrange(i as int, i + pat@.len())[m] == s@[i + m]);
        }
        i = i + 1;
    }
    proof {
        assert forall|j: int| 0 <= j && j + pat@.len() <= s@.len() implies #[trigger] s@.subrange(j, j + pat@.len()) != pat@ by {
            assert(j < i);
        }
    }
    false
}

/// Appends the bytes of `s` to `out`.
pub(crate) fn push_all(out: &mut Vec<u8>, s: &[u8])
    ensures
        final(out)@ == old(out)@ + s@,
{
    let ghost o = out@;
    let mut i: usize = 0;
    while i < s.len()
        invariant
            i <= s@.len(),
            out@ == o + s@.take(i as int),
        decreases s.len() - i,
    {
        out.push(s[i]);
        assert(s@.take(i + 1) =~= s@.take(i as int).push(s@[i as int]));
        i = i + 1;
    }
    assert(s@.take(s@.len() as int) =~= s@);
}

/// Appends `\name\` to `out`.
fn push_name(out: &mut Vec<u8>, name: &[u8])
    ensures
        final(out)@ == old(out)@ + seq![92u8] + name@ + seq![92u8],
{
    let ghost o = out@;
    out.push(92);
    push_all(out, name);
    out.push(92);
    assert(out@ =~= o + seq![92u8] + name@ + seq![92u8]);
}

impl QueryFilter {
    /// The default settings: the default client version and build number.
    pub fn new() -> (r: Self)
        ensures
            r.clver == Some(client_version()),
            r.buildnum == Some(DEFAULT_CLIENT_BUILDNUM),
            r.protocol is None,
            r.gamedir is None,
            r.map is None,
    {
        QueryFilter {
            clver: Some(default_client_version()),
            buildnum: Some(DEFAULT_CLIENT_BUILDNUM),
            protocol: None,
            gamedir: None,
            map: None,
        }
    }

    /// Appends the numeric pairs of the settings to `out`.
    fn push_numbers(&self, out: &mut Vec<u8>)
        ensures
            final(out)@ == old(out)@ + numbers_text(*self),
    {
        let ghost o = out@;
        let clver: [u8; 5] = [99, 108, 118, 101, 114];
        let buildnum: [u8; 8] = [98, 117, 105, 108, 100, 110, 117, 109];
        let protocol: [u8; 8] = [112, 114, 111, 116, 111, 99, 111, 108];
        proof {
            assert(clver@ =~= crate::observer::clver_word());
            assert(buildnum@ =~= crate::observer::buildnum_word());
            assert(protocol@ =~= protocol_word());
        }
        let ghost f = *self;
        let ghost p1 = filter_pair(crate::observer::clver_word(), match f.clver {
            Some(v) => Some(version_text(v)),
            None => None,
        });
        let ghost p2 = filter_pair(crate::observer::buildnum_word(), match f.buildnum {
            Some(n) => Some(dec(n as nat)),
            None => None,
        });
        if let Some(v) = self.clver {
            push_name(out, &clver);
            v.push_text(out);
        }
        assert(out@ =~= o + p1);
        if let Some(n) = self.buildnum {
            push_name(out, &buildnum);
            push_dec(out, n);
        }
        assert(out@ =~= o + p1 + p2);
        if let Some(p) = self.protocol {
            push_name(out, &protocol);
            push_dec(out, p as u32);
        }
        assert(out@ =~= o + numbers_text(*self));
    }

    /// Appends the text pairs of the settings to `out`.
    fn push_strings(&self, out: &mut Vec<u8>)
        ensures
            final(out)@ == old(out)@ + strings_text(*self),
    {
        let ghost o = out@;
        let gamedir: [u8; 7] = [103, 97, 109, 101, 100, 105, 114];
        let map: [u8; 3] = [109, 97, 112];
        proof {
            assert(gamedir@ =~= crate::observer::gamedir_word());
            assert(map@ =~= map_word());
        }
        let ghost f = *self;
        let ghost p4 = filter_pair(crate::observer::gamedir_word(), match f.gamedir {
            Some(g) => Some(string_bytes(g)),
            None => None,
        });
        if let Some(g) = &self.gamedir {
            push_name(out, &gamedir);
            push_all(out, g.as_str().as_bytes());
        }
        assert(out@ =~= o + p4);
        if let Some(m) = &self.map {
            push_name(out, &map);
            push_all(out, m.as_str().as_bytes());
        }
        assert(out@ =~= o + strings_text(*self));
    }

    /// Appends the text of the settings to `out`.
    pub fn push_text(&self, out: &mut Vec<u8>)
        ensures
            final(out)@ == old(out)@ + query_filter_text(*self),
    {
        let ghost o = out@;
        self.push_numbers(out);
        self.push_strings(out);
        assert(out@ =~= o + query_filter_text(*self));
    }

    /// The filter that a query sends: the user's own filter text, if any, then the text of
    /// the settings. A user filter that sets the client version or the build number itself
    /// drops that setting.
    pub fn compose(&mut self, user: Option<&[u8]>) -> (r: Vec<u8>)
        ensures
            final(self).clver == (match user {
                Some(u) => if contains_sub(u@, seq![92u8] + crate::observer::clver_word() + seq![92u8]) {
                    None
                } else {
                    old(self).clver
                },
                None => old(self).clver,
            }),
            final(self).buildnum == (match user {
                Some(u) => if contains_sub(u@, seq![92u8] + crate::observer::buildnum_word() + seq![92u8]) {
                    None
                } else {
                    old(self).buildnum
                },
                None => old(self).buildnum,
            }),
            final(self).protocol == old(self).protocol,
            final(self).gamedir == old(self).gamedir,
            final(self).map == old(self).map,
            r@ == (match user {
                Some(u) => u@,
                None => Seq::<u8>::empty(),
            }) + query_filter_text(*final(self)),
    {
        let mut out: Vec<u8> = Vec::new();
        if let Some(u) = user {
            let clver_key: [u8; 7] = [92, 99, 108, 118, 101, 114, 92];
            let buildnum_key: [u8; 10] = [92, 98, 117, 105, 108, 100, 110, 117, 109, 92];
            proof {
                assert(clver_key@ =~= seq![92u8] + crate::observer::clver_word() + seq![92u8]);
                assert(buildnum_key@ =~= seq![92u8] + crate::observer::buildnum_word() + seq![92u8]);
            }
            if contains_bytes(u, &clver_key) {
                self.clver = None;
            }
            if contains_bytes(u, &buildnum_key) {
                self.buildnum = None;
            }
            push_all(&mut out, u);
        }
        self.push_text(&mut out);
        out
    }
}

/// The address of a master server as given, with `:27010` after it when it has no `:`.
pub open spec fn spec_master_address(s: Seq<u8>) -> Seq<u8> {
    if s.contains(58u8) {
        s
    } else {
        s + seq![58u8, 50u8, 55u8, 48u8, 49u8, 48u8]
    }
}

/// The address of a master server as given, with the default port when it has none.
pub fn master_address(s: &[u8]) -> (r: Vec<u8>)
    ensures
        r@ == spec_master_address(s@),
{
    let mut out: Vec<u8> = Vec::new();
    push_all(&mut out, s);
    let mut i: usize = 0;
    let mut found = false;
    while i < s.len()
        invariant
            i <= s@.len(),
            found == exists|j: int| 0 <= j < i && s@[j] == 58u8,
        decreases s.len() - i,
    {
        if s[i] == 58 {
            found = true;
        }
        i = i + 1;
    }
    if !found {
        out.push(58);
        push_dec(&mut out, DEFAULT_MASTER_PORT as u32);
        assert(dec(27010) =~= seq![50u8, 55u8, 48u8, 49u8, 48u8]) by {
            reveal_with_fuel(dec, 6);
        }
    }
    proof {
        if found {
            let j = choose|j: int| 0 <= j < i && s@[j] == 58u8;
            assert(s@.contains(58u8));
        } else {
            assert(!s@.contains(58u8));
        }
    }
    out
}

/// The protocol versions of a comma-separated list, and whether some item was not one.
pub open spec fn parse_protocols(items: Seq<Seq<u8>>) -> (Seq<u8>, bool)
    decreases items.len(),
{
    if items.len() == 0 {
        (Seq::empty(), false)
    } else {
        let (vs, bad) = parse_protocols(items.drop_last());
        match parse_dec_u8(items.last()) {
            Some(v) => (vs.push(v), bad),
            None => (vs, true),
        }
    }
}

/// The protocol versions of a comma-separated list, and whether some item was not one.
pub fn parse_protocol_list(s: &[u8]) -> (r: (Vec<u8>, bool))
    ensures
        (r.0@, r.1) == parse_protocols(split_on(s@, 44)),
{
    let items = split_on_exec(s, 44);
    let ghost its = items@.map_values(|p: &[u8]| p@);
    let mut out: Vec<u8> = Vec::new();
    let mut bad = false;
    let mut i: usize = 0;
    while i < items.len()
        invariant
            i <= items@.len(),
            its == items@.map_values(|p: &[u8]| p@),
            (out@, bad) == parse_protocols(its.take(i as int)),
        decreases items.len() - i,
    {
        assert(its.take(i + 1).drop_last() =~= its.take(i as int));
        assert(its.take(i + 1).last() == items@[i as int]@);
        match crate::text::parse_u8(items[i]) {
            Some(v) => out.push(v),
            None => bad = true,
        }
        i = i + 1;
    }
    assert(its.take(items@.len() as int) =~= its);
    (out, bad)
}

} // verus!

verus! {

/// What a game server says of itself, as the query tool keeps it.
#[derive(Clone, Debug)]
pub struct ServerInfo {
    pub gamedir: String,
    pub map: String,
    pub host: String,
    pub protocol: u8,
    pub numcl: u8,
    pub maxcl: u8,
    pub dm: bool,
    pub team: bool,
    pub coop: bool,
    pub password: bool,
    pub dedicated: bool,
}

/// The result of asking one server.
#[derive(Clone, Debug)]
pub enum ServerResultKind {
    /// The server answered with its info.
    Info { info: ServerInfo },
    /// The server answered with a packet that did not decode.
    InvalidPacket { message: String, response: String },
    /// The server did not answer.
    Timeout,
    /// The server answered in an unknown protocol version.
    InvalidProtocol,
    /// The server was removed from the list.
    Remove,
}

/// The settings of the query tool.
#[derive(Clone, Debug)]
pub struct Cli {
    pub masters: Vec<String>,
    pub args: Vec<String>,
    pub master_timeout: u32,
    pub server_timeout: u32,
    pub protocol: Vec<u8>,
    pub json: bool,
    pub debug: bool,
    pub force_color: bool,
    pub filter: String,
    pub key: Option<u32>,
}

/// Text written in colors, as the server names carry them.
#[derive(Clone, Copy, Debug)]
pub struct Colored<'a> {
    pub inner: &'a str,
    pub forced: bool,
}

impl<'a> Colored<'a> {
    /// The text `s`, colored on a terminal, or always when `forced`.
    pub fn new(s: &'a str, forced: bool) -> (r: Self)
        ensures
            r.inner == s,
            r.forced == forced,
    {
        Colored { inner: s, forced }
    }
}

/// A server's line in the query tool's listing.
#[derive(Clone, Copy, Debug)]
pub struct ServerInfoPrinter<'a> {
    pub cli: &'a Cli,
    pub info: &'a ServerInfo,
}

impl ServerInfo {
    /// The line of this server, printed with the settings `cli`.
    pub fn printer<'a>(&'a self, cli: &'a Cli) -> (r: ServerInfoPrinter<'a>)
        ensures
            r.info == self,
            r.cli == cli,
    {
        ServerInfoPrinter { info: self, cli }
    }
}

/// `c` when `cond`, else `-`.
pub open spec fn flag(c: u8, cond: bool) -> u8 {
    if cond {
        c
    } else {
        45u8
    }
}

/// The five flags of a server: `d`eathmatch, `t`eam play, `c`ooperative, `p`assword,
/// `D`edicated, each `-` when not set.
pub open spec fn flags_text(i: ServerInfo) -> Seq<u8> {
    seq![flag(100u8, i.dm), flag(116u8, i.team), flag(99u8, i.coop), flag(112u8, i.password), flag(68u8, i.dedicated)]
}

/// `n` spaces.
pub open spec fn spaces(n: int) -> Seq<u8> {
    Seq::new(if n > 0 { n as nat } else { 0 }, |i: int| 32u8)
}

/// The text of `t`, `len` characters long, padded with spaces after it to `width`
/// characters.
pub open spec fn pad_right(t: Seq<u8>, len: nat, width: nat) -> Seq<u8> {
    t + spaces(width - len)
}

/// The players of a server, `numcl/maxcl`: the first number right-aligned and the second
/// left-aligned, in two columns each.
pub open spec fn players_text(numcl: u8, maxcl: u8) -> Seq<u8> {
    spaces(2 - dec(numcl as nat).len()) + dec(numcl as nat) + seq![47u8] + pad_right(
        dec(maxcl as nat),
        dec(maxcl as nat).len(),
        2,
    )
}

/// The text of `s`, left-aligned in `width` columns.
pub open spec fn padded(s: String, width: nat) -> Seq<u8> {
    pad_right(string_bytes(s), s@.len(), width)
}

/// A server's line: its flags, the players, the game directory in 8 columns, the map in 18
/// columns, and the host name in quotes, as `host` renders it.
pub open spec fn server_line(i: ServerInfo, host: Seq<u8>) -> Seq<u8> {
    flags_text(i) + seq![32u8] + players_text(i.numcl, i.maxcl) + seq![32u8] + padded(i.gamedir, 8)
        + seq![32u8] + padded(i.map, 18) + seq![32u8, 34u8] + host + seq![34u8]
}

/// Appends `n` spaces to `out`.
pub(crate) fn push_spaces(out: &mut Vec<u8>, n: usize)
    ensures
        final(out)@ == old(out)@ + spaces(n as int),
{
    let ghost o = out@;
    let mut i: usize = 0;
    while i < n
        invariant
            i <= n,
            out@ == o + spaces(i as int),
        decreases n - i,
    {
        out.push(32);
        assert(spaces(i + 1) =~= spaces(i as int).push(32u8));
        i = i + 1;
    }
}

impl<'a> ServerInfoPrinter<'a> {
    /// The five flags of the server.
    pub fn flags(&self) -> (r: [u8; 5])
        ensures
            r@ == flags_text(*self.info),
    {
        let i = self.info;
        let r = [
            if i.dm { 100u8 } else { 45u8 },
            if i.team { 116u8 } else { 45u8 },
            if i.coop { 99u8 } else { 45u8 },
            if i.password { 112u8 } else { 45u8 },
            if i.dedicated { 68u8 } else { 45u8 },
        ];
        assert(r@ =~= flags_text(*self.info));
        r
    }

    /// The server's line, with the host name as `host` renders it.
    pub fn line(&self, host: &[u8]) -> (r: Vec<u8>)
        ensures
            r@ == server_line(*self.info, host@),
    {
        let i = self.info;
        let mut out: Vec<u8> = Vec::new();
        let f = self.flags();
        push_all(&mut out, &f);
        out.push(32);
        push_players(&mut out, i.numcl, i.maxcl);
        out.push(32);
        push_padded(&mut out, &i.gamedir, 8);
        out.push(32);
        push_padded(&mut out, &i.map, 18);
        out.push(32);
        out.push(34);
        push_all(&mut out, host);
        out.push(34);
        assert(out@ =~= server_line(*self.info, host@));
        out
    }
}

/// Appends the players text to `out`.
fn push_players(out: &mut Vec<u8>, numcl: u8, maxcl: u8)
    ensures
        final(out)@ == old(out)@ + players_text(numcl, maxcl),
{
    let ghost o = out@;
    let mut digits: Vec<u8> = Vec::new();
    push_dec(&mut digits, numcl as u32);
    proof {
        crate::text::lemma_dec(numcl as nat);
        crate::text::lemma_dec(maxcl as nat);
    }
    if digits.len() < 2 {
        push_spaces(out, 2 - digits.len());
    }
    assert(spaces(2 - digits@.len()) =~= if digits@.len() < 2 { spaces(2 - digits@.len()) } else { Seq::<u8>::empty() });
    push_all(out, digits.as_slice());
    out.push(47);
    let mut digits2: Vec<u8> = Vec::new();
    push_dec(&mut digits2, maxcl as u32);
    push_all(out, digits2.as_slice());
    if digits2.len() < 2 {
        push_spaces(out, 2 - digits2.len());
    }
    assert(spaces(2 - digits2@.len()) =~= if digits2@.len() < 2 { spaces(2 - digits2@.len()) } else { Seq::<u8>::empty() });
    assert(out@ =~= o + players_text(numcl, maxcl));
}

/// Appends `s` left-aligned in `width` columns to `out`.
fn push_padded(out: &mut Vec<u8>, s: &String, width: usize)
    ensures
        final(out)@ == old(out)@ + padded(*s, width as nat),
{
    let ghost o = out@;
    let t = s.as_str();
    push_all(out, t.as_bytes());
    let n = t.unicode_len();
    if n < width {
        push_spaces(out, width - n);
    }
    assert(spaces(width - s@.len()) =~= if n < width { spaces((width - n) as int) } else { Seq::<u8>::empty() });
    assert(out@ =~= o + padded(*s, width as nat));
}

} // verus!

verus! {
/// `status`
pub open spec fn key_status() -> Seq<u8> {
    seq![115u8, 116u8, 97u8, 116u8, 117u8, 115u8]
}
/// `host`
pub open spec fn key_host() -> Seq<u8> {
    seq![104u8, 111u8, 115u8, 116u8]
}
/// `gamedir`
pub open spec fn key_gamedir() -> Seq<u8> {
    seq![103u8, 97u8, 109u8, 101u8, 100u8, 105u8, 114u8]
}
/// `map`
pub open spec fn key_map() -> Seq<u8> {
    seq![109u8, 97u8, 112u8]
}
/// `protocol`
pub open spec fn key_protocol() -> Seq<u8> {
    seq![112u8, 114u8, 111u8, 116u8, 111u8, 99u8, 111u8, 108u8]
}
/// `numcl`
pub open spec fn key_numcl() -> Seq<u8> {
    seq![110u8, 117u8, 109u8, 99u8, 108u8]
}
/// `maxcl`
pub open spec fn key_maxcl() -> Seq<u8> {
    seq![109u8, 97u8, 120u8, 99u8, 108u8]
}
/// `dm`
pub open spec fn key_dm() -> Seq<u8> {
    seq![100u8, 109u8]
}
/// `team`
pub open spec fn key_team() -> Seq<u8> {
    seq![116u8, 101u8, 97u8, 109u8]
}
/// `coop`
pub open spec fn key_coop() -> Seq<u8> {
    seq![99u8, 111u8, 111u8, 112u8]
}
/// `password`
pub open spec fn key_password() -> Seq<u8> {
    seq![112u8, 97u8, 115u8, 115u8, 119u8, 111u8, 114u8, 100u8]
}
/// `message`
pub open spec fn key_message() -> Seq<u8> {
    seq![109u8, 101u8, 115u8, 115u8, 97u8, 103u8, 101u8]
}
/// `response`
pub open spec fn key_response() -> Seq<u8> {
    seq![114u8, 101u8, 115u8, 112u8, 111u8, 110u8, 115u8, 101u8]
}
/// `ok`
pub open spec fn word_ok() -> Seq<u8> {
    seq![111u8, 107u8]
}
/// `timeout`
pub open spec fn word_timeout() -> Seq<u8> {
    seq![116u8, 105u8, 109u8, 101u8, 111u8, 117u8, 116u8]
}
/// `protocol`
pub open spec fn word_protocol() -> Seq<u8> {
    seq![112u8, 114u8, 111u8, 116u8, 111u8, 99u8, 111u8, 108u8]
}
/// `invalid`
pub open spec fn word_invalid() -> Seq<u8> {
    seq![105u8, 110u8, 118u8, 97u8, 108u8, 105u8, 100u8]
}
/// `true`
pub open spec fn word_true() -> Seq<u8> {
    seq![116u8, 114u8, 117u8, 101u8]
}
/// `false`
pub open spec fn word_false() -> Seq<u8> {
    seq![102u8, 97u8, 108u8, 115u8, 101u8]
}
/// A line of a server's details: four spaces, the key, `: ` and the value in quotes.
pub open spec fn field_line(key: Seq<u8>, value: Seq<u8>) -> Seq<u8> {
    seq![32u8, 32u8, 32u8, 32u8] + key + seq![58u8, 32u8, 34u8] + value + seq![34u8, 10u8]
}

/// `true` or `false`.
pub open spec fn bool_text(b: bool) -> Seq<u8> {
    if b { word_true() } else { word_false() }
}

/// The text lines of an answered server's details: status, host, game directory, map.
pub open spec fn info_text_fields(i: ServerInfo, host: Seq<u8>) -> Seq<u8> {
    field_line(key_status(), word_ok()) + field_line(key_host(), host) + field_line(key_gamedir(), string_bytes(i.gamedir))
        + field_line(key_map(), string_bytes(i.map))
}

/// The number and flag lines of an answered server's details.
pub open spec fn info_number_fields(i: ServerInfo) -> Seq<u8> {
    field_line(key_protocol(), dec(i.protocol as nat))
        + field_line(key_numcl(), dec(i.numcl as nat)) + field_line(key_maxcl(), dec(i.maxcl as nat))
        + field_line(key_dm(), bool_text(i.dm)) + field_line(key_team(), bool_text(i.team))
        + field_line(key_coop(), bool_text(i.coop)) + field_line(key_password(), bool_text(i.password))
}

/// The details lines of an answered server, with the host name as `host` renders it.
pub open spec fn info_details(i: ServerInfo, host: Seq<u8>) -> Seq<u8> {
    info_text_fields(i, host) + info_number_fields(i)
}

/// The details lines of a server's result: its status, and for an answer its info, for an
/// invalid packet the message and the packet.
pub open spec fn result_details(k: ServerResultKind, host: Seq<u8>) -> Seq<u8> {
    match k {
        ServerResultKind::Info { info } => info_details(info, host),
        ServerResultKind::Timeout => field_line(key_status(), word_timeout()),
        ServerResultKind::InvalidProtocol => field_line(key_status(), word_protocol()),
        ServerResultKind::InvalidPacket { message, response } => field_line(key_status(), word_invalid())
            + field_line(key_message(), string_bytes(message)) + field_line(key_response(), string_bytes(response)),
        ServerResultKind::Remove => Seq::empty(),
    }
}

/// Appends a details line to `out`.
fn push_field(out: &mut Vec<u8>, key: &[u8], value: &[u8])
    ensures
        final(out)@ == old(out)@ + field_line(key@, value@),
{
    let ghost o = out@;
    out.push(32);
    out.push(32);
    out.push(32);
    out.push(32);
    push_all(out, key);
    out.push(58);
    out.push(32);
    out.push(34);
    push_all(out, value);
    out.push(34);
    out.push(10);
    assert(out@ =~= o + field_line(key@, value@));
}

/// Appends a details line with a number to `out`.
fn push_number_field(out: &mut Vec<u8>, key: &[u8], v: u8)
    ensures
        final(out)@ == old(out)@ + field_line(key@, dec(v as nat)),
{
    let mut d: Vec<u8> = Vec::new();
    push_dec(&mut d, v as u32);
    assert(d@ =~= dec(v as nat));
    push_field(out, key, d.as_slice());
}

/// Appends a details line with a flag to `out`.
fn push_bool_field(out: &mut Vec<u8>, key: &[u8], b: bool)
    ensures
        final(out)@ == old(out)@ + field_line(key@, bool_text(b)),
{
    let t: [u8; 4] = [116, 114, 117, 101];
    let f: [u8; 5] = [102, 97, 108, 115, 101];
    proof {
        assert(t@ =~= word_true());
        assert(f@ =~= word_false());
    }
    if b {
        push_field(out, key, &t);
    } else {
        push_field(out, key, &f);
    }
}

/// Appends the text lines of an answered server's details to `out`.
fn push_info_text(out: &mut Vec<u8>, i: &ServerInfo, host: &[u8])
    ensures
        final(out)@ == old(out)@ + info_text_fields(*i, host@),
{
    let ghost o = out@;
    let k_status: [u8; 6] = [115, 116, 97, 116, 117, 115];
    let k_host: [u8; 4] = [104, 111, 115, 116];
    let k_gamedir: [u8; 7] = [103, 97, 109, 101, 100, 105, 114];
    let k_map: [u8; 3] = [109, 97, 112];
    let ok: [u8; 2] = [111, 107];
    proof {
        assert(k_status@ =~= key_status());
        assert(k_host@ =~= key_host());
        assert(k_gamedir@ =~= key_gamedir());
        assert(k_map@ =~= key_map());
        assert(ok@ =~= word_ok());
    }
    push_field(out, &k_status, &ok);
    push_field(out, &k_host, host);
    push_field(out, &k_gamedir, i.gamedir.as_str().as_bytes());
    push_field(out, &k_map, i.map.as_str().as_bytes());
    assert(out@ =~= o + info_text_fields(*i, host@));
}

/// Appends the number and flag lines of an answered server's details to `out`.
#[verifier::spinoff_prover]
#[verifier::rlimit(30)]
fn push_info_numbers(out: &mut Vec<u8>, i: &ServerInfo)
    ensures
        final(out)@ == old(out)@ + info_number_fields(*i),
{
    let ghost o = out@;
    let k_protocol: [u8; 8] = [112, 114, 111, 116, 111, 99, 111, 108];
    let k_numcl: [u8; 5] = [110, 117, 109, 99, 108];
    let k_maxcl: [u8; 5] = [109, 97, 120, 99, 108];
    let k_dm: [u8; 2] = [100, 109];
    let k_team: [u8; 4] = [116, 101, 97, 109];
    let k_coop: [u8; 4] = [99, 111, 111, 112];
    let k_password: [u8; 8] = [112, 97, 115, 115, 119, 111, 114, 100];
    proof {
        assert(k_protocol@ =~= key_protocol());
        assert(k_numcl@ =~= key_numcl());
        assert(k_maxcl@ =~= key_maxcl());
        assert(k_dm@ =~= key_dm());
        assert(k_team@ =~= key_team());
        assert(k_coop@ =~= key_coop());
        assert(k_password@ =~= key_password());
    }
    push_number_field(out, &k_protocol, i.protocol);
    push_number_field(out, &k_numcl, i.numcl);
    push_number_field(out, &k_maxcl, i.maxcl);
    push_bool_field(out, &k_dm, i.dm);
    push_bool_field(out, &k_team, i.team);
    push_bool_field(out, &k_coop, i.coop);
    push_bool_field(out, &k_password, i.password);
    assert(out@ =~= o + info_number_fields(*i));
}

/// Appends the details lines of an answered server to `out`.
fn push_info_details(out: &mut Vec<u8>, i: &ServerInfo, host: &[u8])
    ensures
        final(out)@ == old(out)@ + info_details(*i, host@),
{
    let ghost o = out@;
    push_info_text(out, i, host);
    push_info_numbers(out, i);
    assert(out@ =~= o + info_details(*i, host@));
}

impl ServerResultKind {
    /// The details lines of this result, with the host name as `host` renders it. A removed
    /// server has no details.
    pub fn details(&self, host: &[u8]) -> (r: Vec<u8>)
        requires
            !(self is Remove),
        ensures
            r@ == result_details(*self, host@),
    {
        let mut out: Vec<u8> = Vec::new();
        let k_status: [u8; 6] = [115, 116, 97, 116, 117, 115];
        let k_message: [u8; 7] = [109, 101, 115, 115, 97, 103, 101];
        let k_response: [u8; 8] = [114, 101, 115, 112, 111, 110, 115, 101];
        let w_timeout: [u8; 7] = [116, 105, 109, 101, 111, 117, 116];
        let w_protocol: [u8; 8] = [112, 114, 111, 116, 111, 99, 111, 108];
        let w_invalid: [u8; 7] = [105, 110, 118, 97, 108, 105, 100];
        proof {
            assert(k_status@ =~= key_status());
            assert(k_message@ =~= key_message());
            assert(k_response@ =~= key_response());
            assert(w_timeout@ =~= word_timeout());
            assert(w_protocol@ =~= word_protocol());
            assert(w_invalid@ =~= word_invalid());
        }
        match self {
            ServerResultKind::Info { info } => push_info_details(&mut out, info, host),
            ServerResultKind::Timeout => push_field(&mut out, &k_status, &w_timeout),
            ServerResultKind::InvalidProtocol => push_field(&mut out, &k_status, &w_protocol),
            ServerResultKind::InvalidPacket { message, response } => {
                let ghost o = out@;
                push_field(&mut out, &k_status, &w_invalid);
                push_field(&mut out, &k_message, message.as_str().as_bytes());
                push_field(&mut out, &k_response, response.as_str().as_bytes());
                assert(out@ =~= o + result_details(*self, host@));
            },
            ServerResultKind::Remove => {},
        }
        out
    }
}


/// `server: `
pub open spec fn server_word() -> Seq<u8> {
    seq![115u8, 101u8, 114u8, 118u8, 101u8, 114u8, 58u8, 32u8]
}

/// The block printed for one server's result: `server: `, its address, the ping text (empty
/// where there is no ping), a line break, the details lines, and a blank line.
pub open spec fn server_block(addr: SocketAddr, ping: Seq<u8>, kind: ServerResultKind, host: Seq<u8>) -> Seq<u8> {
    server_word() + socket_addr_text(addr) + ping + seq![10u8] + result_details(kind, host) + seq![10u8]
}

/// The block printed for one server's result, with the ping as the caller writes it (such as
/// ` [1.234 ms]`, or nothing) and the host name as `host` renders it.
pub fn server_block_text(addr: &SocketAddr, ping: &[u8], kind: &ServerResultKind, host: &[u8]) -> (r: Vec<u8>)
    requires
        !(*kind is Remove),
    ensures
        r@ == server_block(*addr, ping@, *kind, host@),
{
    let mut out: Vec<u8> = Vec::new();
    let word: [u8; 8] = [115, 101, 114, 118, 101, 114, 58, 32];
    assert(word@ =~= server_word());
    push_all(&mut out, &word);
    push_socket_addr(&mut out, addr);
    push_all(&mut out, ping);
    out.push(10);
    let d = kind.details(host);
    push_all(&mut out, d.as_slice());
    out.push(10);
    assert(out@ =~= server_block(*addr, ping@, *kind, host@));
    out
}


/// A server that answered in an unknown protocol version is reported with the status
/// `protocol`, one that did not answer with the status `timeout`, whatever the host text;
/// the two reports differ.
pub proof fn lemma_status_words(host: Seq<u8>)
    ensures
        result_details(ServerResultKind::InvalidProtocol, host) == seq![
            32u8, 32u8, 32u8, 32u8, 115u8, 116u8, 97u8, 116u8, 117u8, 115u8, 58u8, 32u8, 34u8,
            112u8, 114u8, 111u8, 116u8, 111u8, 99u8, 111u8, 108u8, 34u8, 10u8,
        ],
        result_details(ServerResultKind::Timeout, host) == seq![
            32u8, 32u8, 32u8, 32u8, 115u8, 116u8, 97u8, 116u8, 117u8, 115u8, 58u8, 32u8, 34u8,
            116u8, 105u8, 109u8, 101u8, 111u8, 117u8, 116u8, 34u8, 10u8,
        ],
        result_details(ServerResultKind::InvalidProtocol, host) != result_details(ServerResultKind::Timeout, host),
{
    let p = result_details(ServerResultKind::InvalidProtocol, host);
    let t = result_details(ServerResultKind::Timeout, host);
    assert(p =~= seq![
        32u8, 32u8, 32u8, 32u8, 115u8, 116u8, 97u8, 116u8, 117u8, 115u8, 58u8, 32u8, 34u8,
        112u8, 114u8, 111u8, 116u8, 111u8, 99u8, 111u8, 108u8, 34u8, 10u8,
    ]);
    assert(t =~= seq![
        32u8, 32u8, 32u8, 32u8, 115u8, 116u8, 97u8, 116u8, 117u8, 115u8, 58u8, 32u8, 34u8,
        116u8, 105u8, 109u8, 101u8, 111u8, 117u8, 116u8, 34u8, 10u8,
    ]);
    assert(p.len() != t.len());
}


/// Every result's details begin with its status line: `ok` for an answer, `invalid` for a
/// packet that did not decode; a removed server has no details.
pub proof fn lemma_status_first(k: ServerResultKind, host: Seq<u8>)
    ensures
        k is Info ==> result_details(k, host).take(16) == seq![
            32u8, 32u8, 32u8, 32u8, 115u8, 116u8, 97u8, 116u8, 117u8, 115u8, 58u8, 32u8, 34u8, 111u8, 107u8, 34u8,
        ] && result_details(k, host)[16] == 10u8,
        k is InvalidPacket ==> result_details(k, host).take(21) == seq![
            32u8, 32u8, 32u8, 32u8, 115u8, 116u8, 97u8, 116u8, 117u8, 115u8, 58u8, 32u8, 34u8,
            105u8, 110u8, 118u8, 97u8, 108u8, 105u8, 100u8, 34u8,
        ] && result_details(k, host)[21] == 10u8,
        k is Remove ==> result_details(k, host).len() == 0,
{
    let d = result_details(k, host);
    match k {
        ServerResultKind::Info { info } => {
            let l = field_line(key_status(), word_ok());
            assert(l =~= seq![
                32u8, 32u8, 32u8, 32u8, 115u8, 116u8, 97u8, 116u8, 117u8, 115u8, 58u8, 32u8, 34u8, 111u8, 107u8, 34u8, 10u8,
            ]);
            assert(d =~= l + (d.skip(17)));
            assert(d.take(16) =~= l.take(16));
        },
        ServerResultKind::InvalidPacket { message, response } => {
            let l = field_line(key_status(), word_invalid());
            assert(l =~= seq![
                32u8, 32u8, 32u8, 32u8, 115u8, 116u8, 97u8, 116u8, 117u8, 115u8, 58u8, 32u8, 34u8,
                105u8, 110u8, 118u8, 97u8, 108u8, 105u8, 100u8, 34u8, 10u8,
            ]);
            assert(d =~= l + (d.skip(22)));
            assert(d.take(21) =~= l.take(21));
        },
        _ => {},
    }
}

} // verus!
