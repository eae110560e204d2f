//! The query tool's command line: from the options as given to the tool's settings.

use vstd::prelude::*;
use vstd::string::StringSliceAdditionalSpecFns;
use vstd::utf8::{encode_utf8_valid_utf8, valid_utf8, valid_utf8_concat};

use crate::filter::{client_version, version_text, Version};
use crate::net::SocketAddr;
use crate::observer::{buildnum_word, clver_word, filter_pair, gamedir_word, key_word, random_u32};
use crate::query::{
    contains_bytes, contains_sub, map_word, master_address, numbers_text, parse_protocol_list,
    parse_protocols, parse_server_addresses, protocol_word, query_filter_text, server_list_of,
    some_address_invalid, spec_master_address, strings_text, Cli, QueryFilter,
    DEFAULT_CLIENT_BUILDNUM,
};
use crate::text::{
    dec, hex, lemma_ascii_valid_utf8, lemma_dec, parse_dec_u32, parse_dec_u8, parse_u32, parse_u8, push_hex,
    str_from_utf8,
};
use crate::udp_server::{bytes_eq, split_on, split_on_exec, string_bytes};

verus! {

/// Every byte of `s` is ASCII.
pub open spec fn ascii(s: Seq<u8>) -> bool {
    forall|i: int| 0 <= i < s.len() ==> #[trigger] s[i] < 128
}

/// ASCII text followed by ASCII text is ASCII.
pub proof fn lemma_ascii_concat(a: Seq<u8>, b: Seq<u8>)
    requires
        ascii(a),
        ascii(b),
    ensures
        ascii(a + b),
{
    assert forall|i: int| 0 <= i < (a + b).len() implies #[trigger] (a + b)[i] < 128 by {
        if i < a.len() {
            assert((a + b)[i] == a[i]);
        } else {
            assert((a + b)[i] == b[i - a.len()]);
        }
    }
}

/// The master servers that the query tool asks when none are given.
pub open spec fn default_masters(ms: Seq<String>) -> bool {
    &&& ms.len() == 4
    &&& ms[0]@ == "mentality.rip:27010"@
    &&& ms[1]@ == "ms2.mentality.rip:27010"@
    &&& ms[2]@ == "ms3.mentality.rip:27010"@
    &&& ms[3]@ == "mentality.rip:27011"@
}

/// The master servers of a `--master` list: its comma-separated items, each with the
/// default port where it has no `:`.
pub open spec fn listed_masters(ms: Seq<String>, list: String) -> bool {
    let items = split_on(string_bytes(list), 44);
    &&& ms.len() == items.len()
    &&& forall|k: int| 0 <= k < items.len() ==> string_bytes(#[trigger] ms[k]) == spec_master_address(items[k])
}

/// The master servers of the comma-separated `list`, each with the default port where it
/// has none.
pub fn master_list(list: &String) -> (r: Vec<String>)
    ensures
        listed_masters(r@, *list),
{
    let bytes = list.as_str().as_bytes();
    proof {
        encode_utf8_valid_utf8(list@);
    }
    let items = split_on_exec(bytes, 44);
    let ghost pieces = split_on(string_bytes(*list), 44);
    assert(items@.map_values(|p: &[u8]| p@) == pieces);
    let mut out: Vec<String> = Vec::new();
    let n = items.len();
    for k in 0..n
        invariant
            n == items@.len(),
            items@.map_values(|p: &[u8]| p@) == pieces,
            forall|j: int| 0 <= j < n ==> valid_utf8(#[trigger] items@[j]@),
            out@.len() == k,
            forall|j: int| 0 <= j < k ==> string_bytes(#[trigger] out@[j]) == spec_master_address(pieces[j]),
    {
        let item = items[k];
        let a = master_address(item);
        proof {
            assert(pieces[k as int] == item@);
            let port = seq![58u8, 50u8, 55u8, 48u8, 49u8, 48u8];
            if !item@.contains(58u8) {
                lemma_ascii_valid_utf8(port);
                valid_utf8_concat(item@, port);
            }
        }
        match str_from_utf8(a.as_slice()) {
            Some(s) => out.push(s.to_owned()),
            None => {
                assert(false);
            },
        }
    }
    out
}

/// The master servers that the query tool asks when none are given.
pub fn default_master_list() -> (r: Vec<String>)
    ensures
        default_masters(r@),
{
    let mut r: Vec<String> = Vec::new();
    r.push("mentality.rip:27010".to_owned());
    r.push("ms2.mentality.rip:27010".to_owned());
    r.push("ms3.mentality.rip:27010".to_owned());
    r.push("mentality.rip:27011".to_owned());
    r
}


/// The pair `\name\value`, where the value is set, is ASCII when both are.
pub proof fn lemma_pair_ascii(name: Seq<u8>, value: Option<Seq<u8>>)
    requires
        ascii(name),
        value matches Some(v) ==> ascii(v),
    ensures
        ascii(filter_pair(name, value)),
{
    if let Some(v) = value {
        lemma_ascii_concat(seq![92u8], name);
        lemma_ascii_concat(seq![92u8] + name, seq![92u8]);
        lemma_ascii_concat(seq![92u8] + name + seq![92u8], v);
    }
}

/// The pair `\name\value`, where the value is set, is valid UTF-8 when the name is ASCII
/// and the value valid UTF-8.
pub proof fn lemma_pair_valid(name: Seq<u8>, value: Option<Seq<u8>>)
    requires
        ascii(name),
        value matches Some(v) ==> valid_utf8(v),
    ensures
        valid_utf8(filter_pair(name, value)),
{
    if let Some(v) = value {
        lemma_ascii_concat(seq![92u8], name);
        lemma_ascii_concat(seq![92u8] + name, seq![92u8]);
        lemma_ascii_valid_utf8(seq![92u8] + name + seq![92u8]);
        valid_utf8_concat(seq![92u8] + name + seq![92u8], v);
    } else {
        assert(filter_pair(name, value) =~= Seq::<u8>::empty());
    }
}

/// Decimal digits are ASCII.
pub proof fn lemma_dec_ascii(v: nat)
    ensures
        ascii(dec(v)),
{
    lemma_dec(v);
    assert forall|i: int| 0 <= i < dec(v).len() implies #[trigger] dec(v)[i] < 128 by {
        assert(crate::text::is_digit(dec(v)[i]));
    }
}

/// Hexadecimal digits are ASCII.
pub proof fn lemma_hex_ascii(v: nat)
    ensures
        ascii(hex(v)),
{
    crate::v6_text::lemma_hex(v);
    assert forall|i: int| 0 <= i < hex(v).len() implies #[trigger] hex(v)[i] < 128 by {
        assert(crate::text::is_digit(hex(v)[i]) || 97 <= hex(v)[i] <= 102);
    }
}

/// The text of a version is ASCII.
pub proof fn lemma_version_ascii(v: Version)
    ensures
        ascii(version_text(v)),
{
    lemma_dec_ascii(v.major as nat);
    lemma_dec_ascii(v.minor as nat);
    lemma_dec_ascii(v.patch as nat);
    lemma_ascii_concat(dec(v.major as nat), seq![46u8]);
    lemma_ascii_concat(dec(v.major as nat) + seq![46u8], dec(v.minor as nat));
    lemma_ascii_concat(seq![46u8], dec(v.patch as nat));
    let tail = if v.patch == 0 {
        Seq::<u8>::empty()
    } else {
        seq![46u8] + dec(v.patch as nat)
    };
    lemma_ascii_concat(dec(v.major as nat) + seq![46u8] + dec(v.minor as nat), tail);
}

/// The text of filter settings is valid UTF-8.
pub proof fn lemma_query_filter_text_valid(f: QueryFilter)
    ensures
        valid_utf8(query_filter_text(f)),
{
    let c = match f.clver {
        Some(v) => Some(version_text(v)),
        None => None,
    };
    let b = match f.buildnum {
        Some(n) => Some(dec(n as nat)),
        None => None,
    };
    let p = match f.protocol {
        Some(x) => Some(dec(x as nat)),
        None => None,
    };
    if let Some(v) = f.clver {
        lemma_version_ascii(v);
    }
    if let Some(n) = f.buildnum {
        lemma_dec_ascii(n as nat);
    }
    if let Some(x) = f.protocol {
        lemma_dec_ascii(x as nat);
    }
    lemma_pair_ascii(clver_word(), c);
    lemma_pair_ascii(buildnum_word(), b);
    lemma_pair_ascii(protocol_word(), p);
    lemma_ascii_concat(filter_pair(clver_word(), c), filter_pair(buildnum_word(), b));
    lemma_ascii_concat(filter_pair(clver_word(), c) + filter_pair(buildnum_word(), b), filter_pair(protocol_word(), p));
    assert(numbers_text(f) == filter_pair(clver_word(), c) + filter_pair(buildnum_word(), b) + filter_pair(protocol_word(), p));
    lemma_ascii_valid_utf8(numbers_text(f));
    let g = match f.gamedir {
        Some(x) => Some(string_bytes(x)),
        None => None,
    };
    let m = match f.map {
        Some(x) => Some(string_bytes(x)),
        None => None,
    };
    if let Some(x) = f.gamedir {
        encode_utf8_valid_utf8(x@);
    }
    if let Some(x) = f.map {
        encode_utf8_valid_utf8(x@);
    }
    lemma_pair_valid(gamedir_word(), g);
    lemma_pair_valid(map_word(), m);
    valid_utf8_concat(filter_pair(gamedir_word(), g), filter_pair(map_word(), m));
    valid_utf8_concat(numbers_text(f), strings_text(f));
}

/// `none`
pub open spec fn none_word() -> Seq<u8> {
    seq![110u8, 111u8, 110u8, 101u8]
}

/// `all`
pub open spec fn all_word() -> Seq<u8> {
    seq![97u8, 108u8, 108u8]
}

/// `\clver\`
pub open spec fn clver_key() -> Seq<u8> {
    seq![92u8] + clver_word() + seq![92u8]
}

/// `\buildnum\`
pub open spec fn buildnum_key() -> Seq<u8> {
    seq![92u8] + buildnum_word() + seq![92u8]
}

/// Whether the user's own filter, if any, sets the pair that `key` starts.
pub open spec fn user_sets(user: Option<String>, key: Seq<u8>) -> bool {
    match user {
        Some(u) => contains_sub(string_bytes(u), key),
        None => false,
    }
}

/// The user's own filter, empty where there is none.
pub open spec fn user_filter_bytes(user: Option<String>) -> Seq<u8> {
    match user {
        Some(u) => string_bytes(u),
        None => Seq::empty(),
    }
}

/// A timeout option: two seconds where it is not given, else its number, if it is one.
pub open spec fn timeout_option(t: Option<String>) -> Option<u32> {
    match t {
        None => Some(2),
        Some(s) => parse_dec_u32(string_bytes(s)),
    }
}

/// The protocol versions of the `--protocol` option, the two newest where it is not given,
/// and whether one of its items is not a version.
pub open spec fn protocol_option(p: Option<String>) -> (Seq<u8>, bool) {
    match p {
        None => (seq![49u8, 48u8], false),
        Some(s) => parse_protocols(split_on(string_bytes(s), 44)),
    }
}

/// The client version that the filter asks for: the default one, dropped where the user's
/// own filter sets it; then the `--filter-clver` option, given as its text and the version
/// read from it: `none` drops it, a version sets it. `None` where the option is neither.
pub open spec fn clver_setting(user: Option<String>, opt: Option<(String, Option<Version>)>) -> Option<Option<Version>> {
    match opt {
        None => Some(if user_sets(user, clver_key()) { None } else { Some(client_version()) }),
        Some((t, v)) => if string_bytes(t) == none_word() {
            Some(None)
        } else {
            match v {
                Some(v) => Some(Some(v)),
                None => None,
            }
        },
    }
}

/// The build number that the filter asks for: the default one, dropped where the user's
/// own filter sets it; then the `--filter-buildnum` option: `none` drops it, a number sets
/// it. `None` where the option is neither.
pub open spec fn buildnum_setting(user: Option<String>, opt: Option<String>) -> Option<Option<u32>> {
    match opt {
        None => Some(if user_sets(user, buildnum_key()) { None } else { Some(4000u32) }),
        Some(t) => if string_bytes(t) == none_word() {
            Some(None)
        } else {
            match parse_dec_u32(string_bytes(t)) {
                Some(n) => Some(Some(n)),
                None => None,
            }
        },
    }
}

/// A text setting of the filter: none by default; the option's text sets it, but for
/// `none` and for `skip`, which leave it unset.
pub open spec fn text_setting(opt: Option<String>, skip: Seq<u8>) -> Option<String> {
    match opt {
        None => None,
        Some(t) => if string_bytes(t) == none_word() || string_bytes(t) == skip {
            None
        } else {
            Some(t)
        },
    }
}


/// The options of the query tool's command line, as given.
#[derive(Clone, Debug)]
pub struct CliOptions {
    /// `--master LIST`: comma-separated master servers.
    pub master: Option<String>,
    /// `--master-timeout SECONDS`
    pub master_timeout: Option<String>,
    /// `--server-timeout SECONDS`
    pub server_timeout: Option<String>,
    /// `--protocol VERSION`: comma-separated protocol versions.
    pub protocol: Option<String>,
    /// `--filter FILTER`: the user's own filter.
    pub filter: Option<String>,
    /// `--filter-clver VERSION`: the text, and the version that `Version`'s `FromStr` read
    /// from it, if any.
    pub filter_clver: Option<(String, Option<Version>)>,
    /// `--filter-buildnum BUILDNUM`
    pub filter_buildnum: Option<String>,
    /// `--filter-gamedir GAMEDIR`
    pub filter_gamedir: Option<String>,
    /// `--filter-map MAP`
    pub filter_map: Option<String>,
    /// `--json`
    pub json: bool,
    /// `--debug`
    pub debug: bool,
    /// `--force-color`
    pub force_color: bool,
    /// `--key`: send a random key to the master servers.
    pub key: bool,
    /// The arguments after the options.
    pub free: Vec<String>,
}

/// Why the options of the command line were refused.
#[derive(Clone, Copy, Debug, PartialEq, Eq, Structural)]
pub enum CliError {
    /// `--master-timeout` is no number of seconds.
    InvalidMasterTimeout,
    /// `--server-timeout` is no number of seconds.
    InvalidServerTimeout,
    /// An item of `--protocol` is no protocol version.
    InvalidProtocol,
    /// `--filter-clver` is neither `none` nor a version.
    InvalidFilterClver,
    /// `--filter-buildnum` is neither `none` nor a number.
    InvalidFilterBuildnum,
    /// The arguments do not parse as the tool's options.
    InvalidArguments,
    /// `--help`: the usage is to be printed instead.
    HelpRequested,
    /// `--version`: the version is to be printed instead.
    VersionRequested,
}

impl CliError {
    /// The message printed for the error.
    pub fn message(&self) -> (r: &'static str)
        ensures
            r@ == match self {
                CliError::InvalidMasterTimeout => "Invalid master-timeout"@,
                CliError::InvalidServerTimeout => "Invalid server-timeout"@,
                CliError::InvalidProtocol => "Invalid protocol version"@,
                CliError::InvalidFilterClver => "Invalid value for --filter-clver"@,
                CliError::InvalidFilterBuildnum => "Invalid value for --filter-buildnum"@,
                CliError::InvalidArguments => "Invalid arguments"@,
                CliError::HelpRequested => "Usage requested"@,
                CliError::VersionRequested => "Version requested"@,
            },
    {
        match self {
            CliError::InvalidMasterTimeout => "Invalid master-timeout",
            CliError::InvalidServerTimeout => "Invalid server-timeout",
            CliError::InvalidProtocol => "Invalid protocol version",
            CliError::InvalidFilterClver => "Invalid value for --filter-clver",
            CliError::InvalidFilterBuildnum => "Invalid value for --filter-buildnum",
            CliError::InvalidArguments => "Invalid arguments",
            CliError::HelpRequested => "Usage requested",
            CliError::VersionRequested => "Version requested",
        }
    }
}

/// The first of the options, in the order the tool reads them, that is refused.
pub open spec fn cli_error(o: CliOptions) -> Option<CliError> {
    if timeout_option(o.master_timeout) is None {
        Some(CliError::InvalidMasterTimeout)
    } else if timeout_option(o.server_timeout) is None {
        Some(CliError::InvalidServerTimeout)
    } else if protocol_option(o.protocol).1 {
        Some(CliError::InvalidProtocol)
    } else if clver_setting(o.filter, o.filter_clver) is None {
        Some(CliError::InvalidFilterClver)
    } else if buildnum_setting(o.filter, o.filter_buildnum) is None {
        Some(CliError::InvalidFilterBuildnum)
    } else {
        None
    }
}

/// The filter settings that the options ask for.
pub open spec fn cli_filter(o: CliOptions) -> QueryFilter {
    QueryFilter {
        clver: match clver_setting(o.filter, o.filter_clver) {
            Some(c) => c,
            None => None,
        },
        buildnum: match buildnum_setting(o.filter, o.filter_buildnum) {
            Some(b) => b,
            None => None,
        },
        protocol: None,
        gamedir: text_setting(o.filter_gamedir, all_word()),
        map: text_setting(o.filter_map, map_word()),
    }
}

/// The filter text of the settings: the user's own filter, then the filter settings, then
/// the key, if one is sent.
pub open spec fn cli_filter_text(o: CliOptions, key: Option<u32>) -> Seq<u8> {
    user_filter_bytes(o.filter) + query_filter_text(cli_filter(o)) + match key {
        Some(k) => key_word() + hex(k as nat),
        None => Seq::empty(),
    }
}

/// A text option with `none` and `skip` leaving the setting unset.
fn text_option(opt: Option<String>, skip: &[u8]) -> (r: Option<String>)
    ensures
        r == text_setting(opt, skip@),
{
    match opt {
        None => None,
        Some(t) => {
            let none: [u8; 4] = [110, 111, 110, 101];
            assert(none@ =~= none_word());
            let b = t.as_str().as_bytes();
            if bytes_eq(b, &none) || bytes_eq(b, skip) {
                None
            } else {
                Some(t)
            }
        },
    }
}

/// A timeout option as a number of seconds.
fn timeout_value(t: &Option<String>) -> (r: Option<u32>)
    ensures
        r == timeout_option(*t),
{
    match t {
        None => Some(2),
        Some(t) => parse_u32(t.as_str().as_bytes()),
    }
}

/// The protocol versions of the `--protocol` option, and whether one item was no version.
fn protocol_value(p: &Option<String>) -> (r: (Vec<u8>, bool))
    ensures
        (r.0@, r.1) == protocol_option(*p),
{
    match p {
        None => {
            let mut v: Vec<u8> = Vec::new();
            v.push(crate::observer::PROTOCOL_VERSION);
            v.push(crate::observer::PROTOCOL_VERSION - 1);
            assert(v@ =~= seq![49u8, 48u8]);
            (v, false)
        },
        Some(p) => parse_protocol_list(p.as_str().as_bytes()),
    }
}

/// The client version and build number that the filter asks for.
fn number_settings(
    user: &Option<String>,
    clver_opt: &Option<(String, Option<Version>)>,
    buildnum_opt: &Option<String>,
) -> (r: Result<(Option<Version>, Option<u32>), CliError>)
    ensures
        r matches Ok((c, b)) ==> clver_setting(*user, *clver_opt) == Some(c) && buildnum_setting(*user, *buildnum_opt) == Some(b),
        r matches Err(e) ==> (e == CliError::InvalidFilterClver && clver_setting(*user, *clver_opt) is None)
            || (e == CliError::InvalidFilterBuildnum && clver_setting(*user, *clver_opt) is Some && buildnum_setting(*user, *buildnum_opt) is None),
{
    let none: [u8; 4] = [110, 111, 110, 101];
    assert(none@ =~= none_word());
    let clver_pat: [u8; 7] = [92, 99, 108, 118, 101, 114, 92];
    let buildnum_pat: [u8; 10] = [92, 98, 117, 105, 108, 100, 110, 117, 109, 92];
    assert(clver_pat@ =~= clver_key());
    assert(buildnum_pat@ =~= buildnum_key());
    let mut clver = Some(crate::filter::default_client_version());
    let mut buildnum = Some(DEFAULT_CLIENT_BUILDNUM);
    if let Some(u) = user {
        if contains_bytes(u.as_str().as_bytes(), &clver_pat) {
            clver = None;
        }
        if contains_bytes(u.as_str().as_bytes(), &buildnum_pat) {
            buildnum = None;
        }
    }
    if let Some((t, v)) = clver_opt {
        if bytes_eq(t.as_str().as_bytes(), &none) {
            clver = None;
        } else {
            match v {
                Some(v) => clver = Some(*v),
                None => return Err(CliError::InvalidFilterClver),
            }
        }
    }
    if let Some(t) = buildnum_opt {
        let b = t.as_str().as_bytes();
        if bytes_eq(b, &none) {
            buildnum = None;
        } else {
            match parse_u32(b) {
                Some(n) => buildnum = Some(n),
                None => return Err(CliError::InvalidFilterBuildnum),
            }
        }
    }
    Ok((clver, buildnum))
}

/// The filter text: the user's own filter, then the filter settings, then the key, if one
/// is sent.
fn filter_text(user: &Option<String>, qf: &QueryFilter, key: Option<u32>) -> (r: String)
    ensures
        string_bytes(r) == user_filter_bytes(*user) + query_filter_text(*qf) + match key {
            Some(k) => key_word() + hex(k as nat),
            None => Seq::<u8>::empty(),
        },
{
    let mut out: Vec<u8> = Vec::new();
    if let Some(u) = user {
        crate::query::push_all(&mut out, u.as_str().as_bytes());
    }
    assert(out@ =~= user_filter_bytes(*user));
    qf.push_text(&mut out);
    if let Some(k) = key {
        let word: [u8; 5] = [92, 107, 101, 121, 92];
        assert(word@ =~= key_word());
        crate::query::push_all(&mut out, &word);
        push_hex(&mut out, k);
    }
    let ghost tail = match key {
        Some(k) => key_word() + hex(k as nat),
        None => Seq::<u8>::empty(),
    };
    proof {
        let ub = user_filter_bytes(*user);
        if let Some(u) = user {
            encode_utf8_valid_utf8(u@);
        } else {
            assert(ub =~= Seq::<u8>::empty());
        }
        lemma_query_filter_text_valid(*qf);
        valid_utf8_concat(ub, query_filter_text(*qf));
        if let Some(k) = key {
            lemma_hex_ascii(k as nat);
            lemma_ascii_concat(key_word(), hex(k as nat));
            lemma_ascii_valid_utf8(key_word() + hex(k as nat));
        } else {
            assert(tail =~= Seq::<u8>::empty());
        }
        valid_utf8_concat(ub + query_filter_text(*qf), tail);
        assert(out@ =~= ub + query_filter_text(*qf) + tail);
    }
    match str_from_utf8(out.as_slice()) {
        Some(s) => s.to_owned(),
        None => {
            assert(false);
            String::new()
        },
    }
}

impl Cli {
    /// The settings that the options of the command line ask for, or the first option
    /// refused. With `--key`, a random key is drawn and added to the filter.
    #[verifier::spinoff_prover]
    #[verifier::rlimit(40)]
    pub fn from_options(opts: CliOptions) -> (r: Result<Cli, CliError>)
        ensures
            r is Err <==> cli_error(opts) is Some,
            r matches Err(e) ==> cli_error(opts) == Some(e),
            r matches Ok(cli) ==> {
                &&& match opts.master {
                    None => default_masters(cli.masters@),
                    Some(m) => listed_masters(cli.masters@, m),
                }
                &&& timeout_option(opts.master_timeout) == Some(cli.master_timeout)
                &&& timeout_option(opts.server_timeout) == Some(cli.server_timeout)
                &&& cli.protocol@ == protocol_option(opts.protocol).0
                &&& cli.key is Some <==> opts.key
                &&& string_bytes(cli.filter) == cli_filter_text(opts, cli.key)
                &&& cli.json == opts.json
                &&& cli.debug == opts.debug
                &&& cli.force_color == opts.force_color
                &&& cli.args == opts.free
            },
    {
        let ghost o = opts;
        let CliOptions {
            master,
            master_timeout,
            server_timeout,
            protocol,
            filter,
            filter_clver,
            filter_buildnum,
            filter_gamedir,
            filter_map,
            json,
            debug,
            force_color,
            key,
            free,
        } = opts;
        let masters = match &master {
            None => default_master_list(),
            Some(m) => master_list(m),
        };
        let master_timeout = match timeout_value(&master_timeout) {
            Some(t) => t,
            None => return Err(CliError::InvalidMasterTimeout),
        };
        let server_timeout = match timeout_value(&server_timeout) {
            Some(t) => t,
            None => return Err(CliError::InvalidServerTimeout),
        };
        let (protocol, bad) = protocol_value(&protocol);
        if bad {
            return Err(CliError::InvalidProtocol);
        }
        let (clver, buildnum) = match number_settings(&filter, &filter_clver, &filter_buildnum) {
            Ok(p) => p,
            Err(e) => return Err(e),
        };
        let all: [u8; 3] = [97, 108, 108];
        let map: [u8; 3] = [109, 97, 112];
        assert(all@ =~= all_word());
        assert(map@ =~= map_word());
        let qf = QueryFilter {
            clver,
            buildnum,
            protocol: None,
            gamedir: text_option(filter_gamedir, &all),
            map: text_option(filter_map, &map),
        };
        assert(qf == cli_filter(o));
        let cli_key = if key {
            Some(random_u32())
        } else {
            None
        };
        let text = filter_text(&filter, &qf, cli_key);
        Ok(Cli {
            masters,
            args: free,
            master_timeout,
            server_timeout,
            protocol,
            json,
            debug,
            force_color,
            filter: text,
            key: cli_key,
        })
    }
}


/// What the query tool is asked to do.
#[derive(Clone, Debug)]
pub enum QueryCommand {
    /// Ask the master servers for servers, then each server for its info.
    All,
    /// Ask the servers given for their info.
    Info(Vec<SocketAddr>),
    /// Ask the master servers for servers and print their addresses.
    List,
    /// Follow the servers given, or those of the master servers where none are given.
    Monitor(Vec<SocketAddr>),
}

/// Why the arguments name no command the query tool can run.
#[derive(Clone, Copy, Debug, PartialEq, Eq, Structural)]
pub enum QueryCommandError {
    /// The first argument is no command.
    UndefinedCommand,
    /// A server address does not parse.
    InvalidAddress,
}

/// `info`
pub open spec fn info_word() -> Seq<u8> {
    seq![105u8, 110u8, 102u8, 111u8]
}

/// `list`
pub open spec fn list_word() -> Seq<u8> {
    seq![108u8, 105u8, 115u8, 116u8]
}

/// `monitor`
pub open spec fn monitor_word() -> Seq<u8> {
    seq![109u8, 111u8, 110u8, 105u8, 116u8, 111u8, 114u8]
}

/// The command word: the first argument, empty where there is none.
pub open spec fn command_word(args: Seq<String>) -> Seq<u8> {
    if args.len() == 0 {
        Seq::empty()
    } else {
        string_bytes(args[0])
    }
}

/// The command that the arguments name: `all` (or nothing), `info` and `monitor` with the
/// server addresses after them, or `list`.
pub fn query_command(args: &[String]) -> (r: Result<QueryCommand, QueryCommandError>)
    ensures
        ({
            let w = command_word(args@);
            let rest = args@.skip(1);
            if w == all_word() || w.len() == 0 {
                r matches Ok(QueryCommand::All)
            } else if w == list_word() {
                r matches Ok(QueryCommand::List)
            } else if w == info_word() || w == monitor_word() {
                &&& r is Err <==> some_address_invalid(rest)
                &&& r matches Err(e) ==> e == QueryCommandError::InvalidAddress
                &&& r matches Ok(c) ==> match c {
                    QueryCommand::Info(l) => w == info_word() && server_list_of(rest, l@),
                    QueryCommand::Monitor(l) => w == monitor_word() && server_list_of(rest, l@),
                    _ => false,
                }
            } else {
                r matches Err(QueryCommandError::UndefinedCommand)
            }
        }),
{
    let all: [u8; 3] = [97, 108, 108];
    let info: [u8; 4] = [105, 110, 102, 111];
    let list: [u8; 4] = [108, 105, 115, 116];
    let monitor: [u8; 7] = [109, 111, 110, 105, 116, 111, 114];
    assert(all@ =~= all_word());
    assert(info@ =~= info_word());
    assert(list@ =~= list_word());
    assert(monitor@ =~= monitor_word());
    if args.len() == 0 {
        return Ok(QueryCommand::All);
    }
    let w = args[0].as_str().as_bytes();
    if w.len() == 0 || bytes_eq(w, &all) {
        Ok(QueryCommand::All)
    } else if bytes_eq(w, &list) {
        Ok(QueryCommand::List)
    } else if bytes_eq(w, &info) || bytes_eq(w, &monitor) {
        let rest = &args[1..args.len()];
        assert(rest@ == args@.skip(1));
        match parse_server_addresses(rest) {
            Some(l) => if bytes_eq(w, &info) {
                Ok(QueryCommand::Info(l))
            } else {
                Ok(QueryCommand::Monitor(l))
            },
            None => Err(QueryCommandError::InvalidAddress),
        }
    } else {
        Err(QueryCommandError::UndefinedCommand)
    }
}


/// The version that a `--filter-clver` text names: `major.minor` or `major.minor.patch`,
/// each a number that fits a byte (as `str::parse::<u8>` reads it), the patch 0 where it is
/// left out; the text that `Version` prints reads back as the version.
pub open spec fn spec_parse_version(s: Seq<u8>) -> Option<Version> {
    let parts = split_on(s, 46);
    if parts.len() == 2 || parts.len() == 3 {
        let patch = if parts.len() == 3 { parse_dec_u8(parts[2]) } else { Some(0u8) };
        match (parse_dec_u8(parts[0]), parse_dec_u8(parts[1]), patch) {
            (Some(a), Some(b), Some(c)) => Some(Version { major: a, minor: b, patch: c }),
            _ => None,
        }
    } else {
        None
    }
}

/// Reads a version from a `--filter-clver` text; see `spec_parse_version`.
pub fn parse_version(s: &[u8]) -> (r: Option<Version>)
    ensures
        r == spec_parse_version(s@),
{
    let parts = split_on_exec(s, 46);
    let ghost ps = parts@.map_values(|p: &[u8]| p@);
    assert(ps == split_on(s@, 46));
    let n = parts.len();
    if n != 2 && n != 3 {
        return None;
    }
    assert(ps[0] == parts@[0]@);
    assert(ps[1] == parts@[1]@);
    let a = parse_u8(parts[0]);
    let b = parse_u8(parts[1]);
    let c = if n == 3 {
        assert(ps[2] == parts@[2]@);
        parse_u8(parts[2])
    } else {
        Some(0u8)
    };
    match (a, b, c) {
        (Some(a), Some(b), Some(c)) => Some(Version { major: a, minor: b, patch: c }),
        _ => None,
    }
}


/// What `getopts` made of the arguments: for each flag whether it was given, for each
/// option with a value the value given, and the free arguments.
pub struct ParsedArgs {
    pub present: Vec<bool>,
    pub values: Vec<Option<String>>,
    pub free: Vec<String>,
}

/// The text of an optional string.
pub open spec fn opt_string_view(o: Option<String>) -> Option<Seq<char>> {
    match o {
        Some(s) => Some(s@),
        None => None,
    }
}

/// The texts of strings.
pub open spec fn strings_view(v: Seq<String>) -> Seq<Seq<char>> {
    v.map_values(|s: String| s@)
}

/// The texts of option declarations: short and long names.
pub open spec fn decls_view<'a>(d: Seq<(&'a str, &'a str)>) -> Seq<(Seq<char>, Seq<char>)> {
    d.map_values(|p: (&'a str, &'a str)| (p.0@, p.1@))
}

/// What `getopts` made of the arguments, as texts.
pub open spec fn parsed_view(p: ParsedArgs) -> (Seq<bool>, Seq<Option<Seq<char>>>, Seq<Seq<char>>) {
    (p.present@, p.values@.map_values(|o: Option<String>| opt_string_view(o)), strings_view(p.free@))
}

/// The outcome of parsing with `getopts`, as texts: what it made of the arguments, or the
/// message of its failure.
pub open spec fn parse_outcome_view(r: Result<ParsedArgs, String>) -> Result<(Seq<bool>, Seq<Option<Seq<char>>>, Seq<Seq<char>>), Seq<char>> {
    match r {
        Ok(p) => Ok(parsed_view(p)),
        Err(e) => Err(e@),
    }
}

/// What `getopts` makes of `args` with the flags `flags` and the options with a value
/// `valued` declared (short and long names): for each flag whether it was given, for each
/// option the value given, and the free arguments; or the message of its failure.
pub uninterp spec fn getopts_parse_result(flags: Seq<(Seq<char>, Seq<char>)>, valued: Seq<(Seq<char>, Seq<char>)>, args: Seq<Seq<char>>) -> Result<(Seq<bool>, Seq<Option<Seq<char>>>, Seq<Seq<char>>), Seq<char>>;

/// Names that `getopts` accepts for a declaration: a short name of at most one byte and a
/// long name of at least two, by which the option is then looked up.
pub open spec fn decl_names_ok<'a>(d: Seq<(&'a str, &'a str)>) -> bool {
    forall|i: int| 0 <= i < d.len() ==> (#[trigger] d[i]).0.spec_bytes().len() <= 1 && d[i].1.spec_bytes().len() >= 2
}

/// `getopts::Options::new`, `optflag` for each of `flags` and `optopt` for each of `valued`
/// (no help texts), then `Options::parse` of `args`, and, on success, `Matches::opt_present`
/// of each flag's long name, `Matches::opt_str` of each option's long name and
/// `Matches::free`; on failure the failure's text.
///
/// Claimed: the outcome is the named result `getopts_parse_result` of the declarations and
/// the arguments, with one answer for each flag and each option. `getopts` panics on a short
/// name of more than one byte or a long name of one byte, and on looking up an undeclared
/// name; `requires` rules those out.
#[verifier::external_body]
fn getopts_parse(flags: &[(&str, &str)], valued: &[(&str, &str)], args: &[String]) -> (r: Result<ParsedArgs, String>)
    requires
        decl_names_ok(flags@),
        decl_names_ok(valued@),
    ensures
        parse_outcome_view(r) == getopts_parse_result(decls_view(flags@), decls_view(valued@), strings_view(args@)),
        r matches Ok(p) ==> p.present@.len() == flags@.len() && p.values@.len() == valued@.len(),
{
    let mut opts = getopts::Options::new();
    for (s, l) in flags { opts.optflag(s, l, ""); }
    for (s, l) in valued { opts.optopt(s, l, "", ""); }
    match opts.parse(args) {
        Ok(m) => {
            let mut present = Vec::new();
            for (_, l) in flags { present.push(m.opt_present(l)); }
            let mut values = Vec::new();
            for (_, l) in valued { values.push(m.opt_str(l)); }
            Ok(ParsedArgs { present, values, free: m.free })
        },
        Err(f) => Err(f.to_string()),
    }
}

/// The flags of the query tool: help, version, json, debug, force-color, key.
pub open spec fn query_flags() -> Seq<(Seq<char>, Seq<char>)> {
    seq![("h"@, "help"@), ("v"@, "version"@), ("j"@, "json"@), ("d"@, "debug"@), ("F"@, "force-color"@), ("k"@, "key"@)]
}

/// The options with a value of the query tool: master, master-timeout, server-timeout,
/// protocol, filter, filter-clver, filter-buildnum, filter-gamedir, filter-map.
pub open spec fn query_valued() -> Seq<(Seq<char>, Seq<char>)> {
    seq![
        ("M"@, "master"@),
        ("T"@, "master-timeout"@),
        ("t"@, "server-timeout"@),
        ("p"@, "protocol"@),
        ("f"@, "filter"@),
        ("V"@, "filter-clver"@),
        ("b"@, "filter-buildnum"@),
        ("g"@, "filter-gamedir"@),
        ("m"@, "filter-map"@),
    ]
}

/// The options `o` are those that `getopts` read: the values in the order of
/// `query_valued`, the version read from the `--filter-clver` text, the flags in the order
/// of `query_flags` after help and version, and the free arguments.
pub open spec fn options_from(o: CliOptions, present: Seq<bool>, values: Seq<Option<Seq<char>>>, free: Seq<Seq<char>>) -> bool {
    &&& opt_string_view(o.master) == values[0]
    &&& opt_string_view(o.master_timeout) == values[1]
    &&& opt_string_view(o.server_timeout) == values[2]
    &&& opt_string_view(o.protocol) == values[3]
    &&& opt_string_view(o.filter) == values[4]
    &&& match o.filter_clver {
        None => values[5] is None,
        Some((t, v)) => values[5] == Some(t@) && v == spec_parse_version(string_bytes(t)),
    }
    &&& opt_string_view(o.filter_buildnum) == values[6]
    &&& opt_string_view(o.filter_gamedir) == values[7]
    &&& opt_string_view(o.filter_map) == values[8]
    &&& o.json == present[2]
    &&& o.debug == present[3]
    &&& o.force_color == present[4]
    &&& o.key == present[5]
    &&& strings_view(o.free@) == free
}

/// What `Cli::from_options` gives for the options `o`: see its contract.
pub open spec fn from_options_result(o: CliOptions, r: Result<Cli, CliError>) -> bool {
    &&& r is Err <==> cli_error(o) is Some
    &&& r matches Err(e) ==> cli_error(o) == Some(e)
    &&& r matches Ok(cli) ==> {
        &&& match o.master {
            None => default_masters(cli.masters@),
            Some(m) => listed_masters(cli.masters@, m),
        }
        &&& timeout_option(o.master_timeout) == Some(cli.master_timeout)
        &&& timeout_option(o.server_timeout) == Some(cli.server_timeout)
        &&& cli.protocol@ == protocol_option(o.protocol).0
        &&& cli.key is Some <==> o.key
        &&& string_bytes(cli.filter) == cli_filter_text(o, cli.key)
        &&& cli.json == o.json
        &&& cli.debug == o.debug
        &&& cli.force_color == o.force_color
        &&& cli.args == o.free
    }
}

/// The option at place `i`, copied.
fn value_at(v: &Vec<Option<String>>, i: usize) -> (r: Option<String>)
    requires
        i < v@.len(),
    ensures
        r == v@[i as int],
{
    match &v[i] {
        Some(s) => Some(s.clone()),
        None => None,
    }
}

/// The query tool's settings from its command-line arguments (those after the program's
/// name): they are read as the tool's flags and options, then as `Cli::from_options` reads
/// them. `--help` and `--version` come before any setting; arguments that do not parse are
/// refused.
pub fn cli_from_args(args: &[String]) -> (r: Result<Cli, CliError>)
    ensures
        ({
            let pr = getopts_parse_result(query_flags(), query_valued(), strings_view(args@));
            match pr {
                Err(_) => r matches Err(CliError::InvalidArguments),
                Ok((present, values, free)) => if present[0] {
                    r matches Err(CliError::HelpRequested)
                } else if present[1] {
                    r matches Err(CliError::VersionRequested)
                } else {
                    exists|o: CliOptions| #[trigger] options_from(o, present, values, free) && from_options_result(o, r)
                },
            }
        }),
{
    let flags: [(&str, &str); 6] = [("h", "help"), ("v", "version"), ("j", "json"), ("d", "debug"), ("F", "force-color"), ("k", "key")];
    let valued: [(&str, &str); 9] = [
        ("M", "master"),
        ("T", "master-timeout"),
        ("t", "server-timeout"),
        ("p", "protocol"),
        ("f", "filter"),
        ("V", "filter-clver"),
        ("b", "filter-buildnum"),
        ("g", "filter-gamedir"),
        ("m", "filter-map"),
    ];
    proof {
        broadcast use vstd::string::is_ascii_spec_bytes;
        reveal_strlit("h");
        reveal_strlit("help");
        reveal_strlit("v");
        reveal_strlit("version");
        reveal_strlit("j");
        reveal_strlit("json");
        reveal_strlit("d");
        reveal_strlit("debug");
        reveal_strlit("F");
        reveal_strlit("force-color");
        reveal_strlit("k");
        reveal_strlit("key");
        reveal_strlit("M");
        reveal_strlit("master");
        reveal_strlit("T");
        reveal_strlit("master-timeout");
        reveal_strlit("t");
        reveal_strlit("server-timeout");
        reveal_strlit("p");
        reveal_strlit("protocol");
        reveal_strlit("f");
        reveal_strlit("filter");
        reveal_strlit("V");
        reveal_strlit("filter-clver");
        reveal_strlit("b");
        reveal_strlit("filter-buildnum");
        reveal_strlit("g");
        reveal_strlit("filter-gamedir");
        reveal_strlit("m");
        reveal_strlit("filter-map");
        assert(decls_view(flags@) =~= query_flags());
        assert(decls_view(valued@) =~= query_valued());
        assert forall|i: int| 0 <= i < flags@.len() implies (#[trigger] flags@[i]).0.spec_bytes().len() <= 1
            && flags@[i].1.spec_bytes().len() >= 2 by {
            assert(vstd::string::is_ascii(flags@[i].0) && vstd::string::is_ascii(flags@[i].1));
        }
        assert forall|i: int| 0 <= i < valued@.len() implies (#[trigger] valued@[i]).0.spec_bytes().len() <= 1
            && valued@[i].1.spec_bytes().len() >= 2 by {
            assert(vstd::string::is_ascii(valued@[i].0) && vstd::string::is_ascii(valued@[i].1));
        }
    }
    let parsed = match getopts_parse(&flags, &valued, args) {
        Ok(p) => p,
        Err(_) => return Err(CliError::InvalidArguments),
    };
    let ghost pv = parsed_view(parsed);
    if parsed.present[0] {
        return Err(CliError::HelpRequested);
    }
    if parsed.present[1] {
        return Err(CliError::VersionRequested);
    }
    let filter_clver = match value_at(&parsed.values, 5) {
        Some(t) => {
            let v = parse_version(t.as_str().as_bytes());
            Some((t, v))
        },
        None => None,
    };
    let opts = CliOptions {
        master: value_at(&parsed.values, 0),
        master_timeout: value_at(&parsed.values, 1),
        server_timeout: value_at(&parsed.values, 2),
        protocol: value_at(&parsed.values, 3),
        filter: value_at(&parsed.values, 4),
        filter_clver,
        filter_buildnum: value_at(&parsed.values, 6),
        filter_gamedir: value_at(&parsed.values, 7),
        filter_map: value_at(&parsed.values, 8),
        json: parsed.present[2],
        debug: parsed.present[3],
        force_color: parsed.present[4],
        key: parsed.present[5],
        free: parsed.free,
    };
    proof {
        assert(pv.1[5] == opt_string_view(parsed.values@[5]));
        assert(options_from(opts, pv.0, pv.1, pv.2));
    }
    let ghost o = opts;
    let r = Cli::from_options(opts);
    assert(from_options_result(o, r));
    r
}

} // verus!
