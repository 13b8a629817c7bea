//! Queries on the host's own process and socket tables, and the policies
//! applied to their results.
use vstd::prelude::*;
use vstd::string::*;
use crate::text::{
    after_last, after_last_spec, chars_of, lines, parse_uint, parse_unsigned, split,
    split_lines, split_on, split_words, string_of, trim, trimmed, views, words,
};

verus! {

/// The final component of a path, as `Path::file_name` gives it.
pub uninterp spec fn file_name_of(p: Seq<char>) -> Option<Seq<char>>;

/// Relies on std's `Path::file_name`: the final component of the path, or
/// none when the path ends in `..` or is a root or empty.
#[verifier::external_body]
pub(crate) fn path_file_name(p: &str) -> (r: Option<String>)
    ensures
        match r {
            Some(n) => file_name_of(p@) == Some(n@),
            None => file_name_of(p@) is None,
        },
{
    std::path::Path::new(p).file_name().map(|n| n.to_string_lossy().into_owned())
}

/// Why a host query failed.
#[derive(Debug, Clone, PartialEq, Eq)]
pub enum HostError {
    /// The query has no implementation on this platform.
    Unsupported,
    /// The operating system's tool failed; carries its message.
    Failed(String),
}

pub open spec fn host_error_text(e: HostError) -> Seq<char> {
    match e {
        HostError::Unsupported => "Not supported on non-Windows yet"@,
        HostError::Failed(m) => m@,
    }
}

impl HostError {
    /// The message handed back to the caller.
    pub fn message(&self) -> (r: String)
        ensures
            r@ == host_error_text(*self),
    {
        match self {
            HostError::Unsupported => String::from_str("Not supported on non-Windows yet"),
            HostError::Failed(m) => m.clone(),
        }
    }
}

/// Whether `needle` occurs in `hay`.
pub open spec fn occurs(hay: Seq<char>, needle: Seq<char>) -> bool {
    exists|i: int| 0 <= i && i + needle.len() <= hay.len() && #[trigger] hay.subrange(i, i + needle.len()) == needle
}

/// Whether `needle` occurs in `hay`.
pub fn contains_text(hay: &Vec<char>, needle: &Vec<char>) -> (r: bool)
    ensures
        r == occurs(hay@, needle@),
{
    let n: usize = hay.len();
    let m: usize = needle.len();
    if m > n {
        return false;
    }
    let mut i: usize = 0;
    while i <= n - m
        invariant
            n == hay@.len(),
            m == needle@.len(),
            m <= n,
            i <= n - m + 1,
            forall|j: int| 0 <= j < i ==> #[trigger] hay@.subrange(j, j + m) != needle@,
        decreases n - m + 1 - i,
    {
        let mut k: usize = 0;
        let mut same: bool = true;
        while k < m
            invariant
                n == hay@.len(),
                m == needle@.len(),
                i + m <= n,
                k <= m,
                same == (forall|j: int| 0 <= j < k ==> hay@[i + j] == needle@[j]),
            decreases m - k,
        {
            if hay[i + k] != needle[k] {
                same = false;
            }
            k = k + 1;
        }
        if same {
            assert(hay@.subrange(i as int, i + m) =~= needle@);
            return true;
        }
        assert(hay@.subrange(i as int, i + m) != needle@) by {
            let j = choose|j: int| 0 <= j < m && hay@[i + j] != needle@[j];
            assert(hay@.subrange(i as int, i + m)[j] != needle@[j]);
        }
        i = i + 1;
    }
    false
}

/// The result of a kill by process id. A process that does not exist (the
/// tool reports "not found") counts as success: there was nothing to kill.
pub fn kill_by_pid_outcome(succeeded: bool, stderr: &str) -> (r: Result<(), HostError>)
    ensures
        succeeded ==> r is Ok,
        !succeeded && occurs(stderr@, "not found"@) ==> r is Ok,
        !succeeded && !occurs(stderr@, "not found"@) ==> (r matches Err(HostError::Failed(m))
            && m@ == stderr@),
{
    if succeeded {
        return Ok(());
    }
    let hay = chars_of(stderr);
    let needle = chars_of("not found");
    if contains_text(&hay, &needle) {
        Ok(())
    } else {
        Err(HostError::Failed(String::from_str(stderr)))
    }
}

/// The result of a kill by image name. A name that matches no process (the
/// tool reports "not found") counts as success: there was nothing to kill.
pub fn kill_by_name_outcome(succeeded: bool, stderr: &str) -> (r: Result<(), HostError>)
    ensures
        succeeded ==> r is Ok,
        !succeeded && occurs(stderr@, "not found"@) ==> r is Ok,
        !succeeded && !occurs(stderr@, "not found"@) ==> (r matches Err(HostError::Failed(m))
            && m@ == stderr@),
{
    if succeeded {
        return Ok(());
    }
    let hay = chars_of(stderr);
    let needle = chars_of("not found");
    if contains_text(&hay, &needle) {
        Ok(())
    } else {
        Err(HostError::Failed(String::from_str(stderr)))
    }
}

/// Unicode lower case, as `str::to_lowercase` gives it.
pub uninterp spec fn lower_of(s: Seq<char>) -> Seq<char>;

/// Relies on std's `str::to_lowercase`: the result depends on the
/// characters alone.
#[verifier::external_body]
pub(crate) fn lowercase(s: &str) -> (r: String)
    ensures
        r@ == lower_of(s@),
{
    s.to_lowercase()
}

/// Whether a process-table listing names the file of `exe_path`,
/// compared case-insensitively.
pub open spec fn listing_names(listing: Seq<char>, exe_path: Seq<char>) -> bool {
    match file_name_of(exe_path) {
        Some(n) => occurs(lower_of(listing), lower_of(n)),
        None => false,
    }
}

/// Whether the filtered process listing `listing` shows a process whose
/// image name is the file name of `exe_path`.
pub fn listing_shows(listing: &str, exe_path: &str) -> (r: bool)
    ensures
        r == listing_names(listing@, exe_path@),
{
    match path_file_name(exe_path) {
        None => false,
        Some(n) => {
            let hay = chars_of(lowercase(listing).as_str());
            let needle = chars_of(lowercase(n.as_str()).as_str());
            contains_text(&hay, &needle)
        },
    }
}

/// The field separator of the process table's CSV listing.
pub open spec fn csv_sep() -> Seq<char> {
    seq!['"', ',', '"']
}

/// The process id and image name that one CSV line of the process table
/// gives, when its second field is a process id.
pub open spec fn tasklist_entry(line: Seq<char>) -> Option<(u32, Seq<char>)> {
    let f = split(line, csv_sep());
    if f.len() >= 2 {
        match parse_unsigned(trimmed(f[1], true), u32::MAX as nat) {
            Some(p) => Some((p as u32, trimmed(f[0], true))),
            None => None,
        }
    } else {
        None
    }
}

/// The entries of the process table's lines, in order.
pub open spec fn tasklist_table(ls: Seq<Seq<char>>) -> Seq<(u32, Seq<char>)>
    decreases ls.len(),
{
    if ls.len() == 0 {
        Seq::empty()
    } else {
        let t = tasklist_table(ls.drop_last());
        match tasklist_entry(ls.last()) {
            Some(e) => t.push(e),
            None => t,
        }
    }
}

/// The name listed last for `pid`, or "Unknown".
pub open spec fn name_of_pid(t: Seq<(u32, Seq<char>)>, pid: u32) -> Seq<char>
    decreases t.len(),
{
    if t.len() == 0 {
        "Unknown"@
    } else if t.last().0 == pid {
        t.last().1
    } else {
        name_of_pid(t.drop_last(), pid)
    }
}

pub open spec fn table_view(t: Seq<(u32, String)>) -> Seq<(u32, Seq<char>)> {
    t.map_values(|e: (u32, String)| (e.0, e.1@))
}

fn tasklist_entry_of(line: &Vec<char>) -> (r: Option<(u32, String)>)
    ensures
        match tasklist_entry(line@) {
            Some(e) => r matches Some(x) && x.0 == e.0 && x.1@ == e.1,
            None => r is None,
        },
{
    let sep = vec!['"', ',', '"'];
    assert(sep@ =~= csv_sep());
    let f = split_on(line, &sep);
    if f.len() < 2 {
        return None;
    }
    assert(views(f@)[0] == f@[0]@ && views(f@)[1] == f@[1]@);
    let pid_text = trim(&f[1], true);
    match parse_uint(&pid_text, 4294967295u64) {
        Some(p) => {
            let name = trim(&f[0], true);
            Some((p as u32, string_of(&name)))
        },
        None => None,
    }
}

/// Process ids and image names from the process table's CSV listing.
pub fn parse_tasklist(out: &str) -> (r: Vec<(u32, String)>)
    ensures
        table_view(r@) == tasklist_table(lines(out@)),
{
    let text = chars_of(out);
    let ls = split_lines(&text);
    let ghost lv = views(ls@);
    let mut r: Vec<(u32, String)> = Vec::new();
    let mut i: usize = 0;
    assert(lv.subrange(0, 0) =~= Seq::<Seq<char>>::empty());
    assert(table_view(r@) =~= Seq::<(u32, Seq<char>)>::empty());
    while i < ls.len()
        invariant
            lv == views(ls@),
            lv == lines(out@),
            i <= ls@.len(),
            table_view(r@) == tasklist_table(lv.subrange(0, i as int)),
        decreases ls@.len() - i,
    {
        let ghost old_r = r@;
        assert(lv.subrange(0, i + 1).drop_last() =~= lv.subrange(0, i as int));
        assert(lv[i as int] == ls@[i as int]@);
        match tasklist_entry_of(&ls[i]) {
            Some(e) => {
                r.push(e);
                assert(table_view(r@) =~= table_view(old_r).push((e.0, e.1@)));
            },
            None => {},
        }
        i = i + 1;
    }
    assert(lv.subrange(0, i as int) =~= lv);
    r
}

/// The name listed last for `pid` in `t`, or "Unknown".
pub fn name_for_pid(t: &Vec<(u32, String)>, pid: u32) -> (r: String)
    ensures
        r@ == name_of_pid(table_view(t@), pid),
{
    let mut i: usize = t.len();
    let ghost tv = table_view(t@);
    assert(tv.subrange(0, i as int) =~= tv);
    while i > 0
        invariant
            tv == table_view(t@),
            i <= t@.len(),
            name_of_pid(tv.subrange(0, i as int), pid) == name_of_pid(tv, pid),
        decreases i,
    {
        assert(tv.subrange(0, i as int).drop_last() =~= tv.subrange(0, i - 1));
        if t[i - 1].0 == pid {
            return t[i - 1].1.clone();
        }
        i = i - 1;
    }
    String::from_str("Unknown")
}

/// The transport protocol of a socket.
#[derive(Debug, Clone, Copy, PartialEq, Eq, Structural)]
pub enum Protocol {
    Tcp,
    Udp,
}

pub open spec fn protocol_text(p: Protocol) -> Seq<char> {
    match p {
        Protocol::Tcp => "TCP"@,
        Protocol::Udp => "UDP"@,
    }
}

impl Protocol {
    /// The protocol's name as the socket table writes it.
    pub fn name(&self) -> (r: String)
        ensures
            r@ == protocol_text(*self),
    {
        match self {
            Protocol::Tcp => String::from_str("TCP"),
            Protocol::Udp => String::from_str("UDP"),
        }
    }
}

/// A socket listening on a local port, with its owning process.
pub struct PortRecord {
    pub port: u16,
    pub pid: u32,
    pub name: String,
    pub protocol: Protocol,
}

pub open spec fn port_view(r: PortRecord) -> (u16, u32, Seq<char>, Protocol) {
    (r.port, r.pid, r.name@, r.protocol)
}

pub open spec fn port_views(s: Seq<PortRecord>) -> Seq<(u16, u32, Seq<char>, Protocol)> {
    s.map_values(|r: PortRecord| port_view(r))
}

/// The record for a socket on `addr` owned by `pid_text`, when both read
/// as numbers.
pub open spec fn socket_entry(
    addr: Seq<char>,
    pid_text: Seq<char>,
    protocol: Protocol,
    t: Seq<(u32, Seq<char>)>,
) -> Option<(u16, u32, Seq<char>, Protocol)> {
    match (parse_unsigned(after_last_spec(addr, ':'), 65535), parse_unsigned(pid_text, u32::MAX as nat)) {
        (Some(port), Some(pid)) => Some((port as u16, pid as u32, name_of_pid(t, pid as u32), protocol)),
        _ => None,
    }
}

/// The record that one line of the socket table gives: a listening TCP
/// socket, or a UDP socket.
pub open spec fn netstat_entry(line: Seq<char>, t: Seq<(u32, Seq<char>)>) -> Option<
    (u16, u32, Seq<char>, Protocol),
> {
    let w = words(line);
    if w.len() >= 5 && w[0] == "TCP"@ && w[3] == "LISTENING"@ {
        socket_entry(w[1], w[4], Protocol::Tcp, t)
    } else if w.len() >= 4 && w[0] == "UDP"@ {
        socket_entry(w[1], w[3], Protocol::Udp, t)
    } else {
        None
    }
}

/// The records of the socket table's lines, in order.
pub open spec fn netstat_records(ls: Seq<Seq<char>>, t: Seq<(u32, Seq<char>)>) -> Seq<
    (u16, u32, Seq<char>, Protocol),
>
    decreases ls.len(),
{
    if ls.len() == 0 {
        Seq::empty()
    } else {
        let r = netstat_records(ls.drop_last(), t);
        match netstat_entry(ls.last(), t) {
            Some(e) => r.push(e),
            None => r,
        }
    }
}

fn same_text(a: &Vec<char>, b: &str) -> (r: bool)
    ensures
        r == (a@ == b@),
{
    let bv = chars_of(b);
    if a.len() != bv.len() {
        return false;
    }
    let mut i: usize = 0;
    while i < a.len()
        invariant
            a@.len() == bv@.len(),
            bv@ == b@,
            i <= a@.len(),
            forall|j: int| 0 <= j < i ==> a@[j] == bv@[j],
        decreases a@.len() - i,
    {
        if a[i] != bv[i] {
            return false;
        }
        i = i + 1;
    }
    assert(a@ =~= bv@);
    true
}

fn socket_entry_of(addr: &Vec<char>, pid_text: &Vec<char>, protocol: Protocol, t: &Vec<(u32, String)>) -> (r: Option<PortRecord>)
    ensures
        match socket_entry(addr@, pid_text@, protocol, table_view(t@)) {
            Some(e) => r matches Some(x) && port_view(x) == e,
            None => r is None,
        },
{
    let port_text = after_last(addr, ':');
    let port = parse_uint(&port_text, 65535u64);
    let pid = parse_uint(pid_text, 4294967295u64);
    match (port, pid) {
        (Some(port), Some(pid)) => {
            let name = name_for_pid(t, pid as u32);
            Some(PortRecord { port: port as u16, pid: pid as u32, name, protocol })
        },
        _ => None,
    }
}

fn netstat_entry_of(line: &Vec<char>, t: &Vec<(u32, String)>) -> (r: Option<PortRecord>)
    ensures
        match netstat_entry(line@, table_view(t@)) {
            Some(e) => r matches Some(x) && port_view(x) == e,
            None => r is None,
        },
{
    let w = split_words(line);
    let ghost wv = views(w@);
    if w.len() >= 5 && same_text(&w[0], "TCP") && same_text(&w[3], "LISTENING") {
        assert(wv[0] == w@[0]@ && wv[1] == w@[1]@ && wv[3] == w@[3]@ && wv[4] == w@[4]@);
        socket_entry_of(&w[1], &w[4], Protocol::Tcp, t)
    } else if w.len() >= 4 && same_text(&w[0], "UDP") {
        assert(wv[0] == w@[0]@ && wv[1] == w@[1]@ && wv[3] == w@[3]@);
        socket_entry_of(&w[1], &w[3], Protocol::Udp, t)
    } else {
        proof {
            if w.len() >= 5 {
                assert(wv[0] == w@[0]@ && wv[3] == w@[3]@);
            }
            if w.len() >= 4 {
                assert(wv[0] == w@[0]@);
            }
        }
        None
    }
}

/// The sockets of the socket table's listing `out`, in the order listed,
/// each named by the process table `t`.
pub fn parse_netstat(out: &str, t: &Vec<(u32, String)>) -> (r: Vec<PortRecord>)
    ensures
        port_views(r@) == netstat_records(lines(out@), table_view(t@)),
{
    let text = chars_of(out);
    let ls = split_lines(&text);
    let ghost lv = views(ls@);
    let mut r: Vec<PortRecord> = Vec::new();
    let mut i: usize = 0;
    assert(lv.subrange(0, 0) =~= Seq::<Seq<char>>::empty());
    assert(port_views(r@) =~= Seq::<(u16, u32, Seq<char>, Protocol)>::empty());
    while i < ls.len()
        invariant
            lv == views(ls@),
            lv == lines(out@),
            i <= ls@.len(),
            port_views(r@) == netstat_records(lv.subrange(0, i as int), table_view(t@)),
        decreases ls@.len() - i,
    {
        let ghost old_r = r@;
        assert(lv.subrange(0, i + 1).drop_last() =~= lv.subrange(0, i as int));
        assert(lv[i as int] == ls@[i as int]@);
        match netstat_entry_of(&ls[i], t) {
            Some(e) => {
                let ghost ev = port_view(e);
                r.push(e);
                assert(port_views(r@) =~= port_views(old_r).push(ev));
            },
            None => {},
        }
        i = i + 1;
    }
    assert(lv.subrange(0, i as int) =~= lv);
    r
}

/// What identifies a socket record: port, process id and protocol.
pub open spec fn port_key(v: (u16, u32, Seq<char>, Protocol)) -> (u16, u32, Protocol) {
    (v.0, v.1, v.3)
}

pub open spec fn ports_ascending(s: Seq<(u16, u32, Seq<char>, Protocol)>) -> bool {
    forall|a: int, b: int| 0 <= a < b < s.len() ==> (#[trigger] s[a]).0 <= (#[trigger] s[b]).0
}

pub open spec fn port_keys_unique(s: Seq<(u16, u32, Seq<char>, Protocol)>) -> bool {
    forall|a: int, b: int|
        0 <= a < b < s.len() ==> port_key(#[trigger] s[a]) != port_key(#[trigger] s[b])
}

/// `out[a]` is the first record of `raw` with its key.
pub open spec fn first_of_key(
    raw: Seq<(u16, u32, Seq<char>, Protocol)>,
    v: (u16, u32, Seq<char>, Protocol),
    k: int,
) -> bool {
    0 <= k < raw.len() && raw[k] == v && forall|k2: int|
        0 <= k2 < k ==> port_key(#[trigger] raw[k2]) != port_key(v)
}

/// Some record of `out` has the key `key`.
pub open spec fn has_key(out: Seq<(u16, u32, Seq<char>, Protocol)>, key: (u16, u32, Protocol)) -> bool {
    exists|a: int| 0 <= a < out.len() && port_key(#[trigger] out[a]) == key
}

/// `v` is the first record with its key among the first `i` of `raw`.
pub open spec fn kept_first(
    raw: Seq<(u16, u32, Seq<char>, Protocol)>,
    v: (u16, u32, Seq<char>, Protocol),
    i: int,
) -> bool {
    exists|k: int| k < i && #[trigger] first_of_key(raw, v, k)
}

/// `out` collates `raw`: sorted ascending by port, one record for each
/// (port, pid, protocol) of `raw`, the first one listed.
pub open spec fn collated(
    raw: Seq<(u16, u32, Seq<char>, Protocol)>,
    out: Seq<(u16, u32, Seq<char>, Protocol)>,
) -> bool {
    &&& ports_ascending(out)
    &&& port_keys_unique(out)
    &&& forall|a: int| 0 <= a < out.len() ==> kept_first(raw, #[trigger] out[a], raw.len() as int)
    &&& forall|k: int| 0 <= k < raw.len() ==> has_key(out, port_key(#[trigger] raw[k]))
}

/// `ov` collates the first `i` records of `rv`.
#[verifier::opaque]
pub open spec fn collating(
    rv: Seq<(u16, u32, Seq<char>, Protocol)>,
    ov: Seq<(u16, u32, Seq<char>, Protocol)>,
    i: int,
) -> bool {
    &&& ports_ascending(ov)
    &&& port_keys_unique(ov)
    &&& forall|a: int| 0 <= a < ov.len() ==> kept_first(rv, #[trigger] ov[a], i)
    &&& forall|k: int| 0 <= k < i ==> has_key(ov, port_key(#[trigger] rv[k]))
}

proof fn lemma_collating_insert(
    rv: Seq<(u16, u32, Seq<char>, Protocol)>,
    ov: Seq<(u16, u32, Seq<char>, Protocol)>,
    i: int,
    p: int,
)
    requires
        0 <= i < rv.len(),
        collating(rv, ov, i),
        forall|a: int| 0 <= a < ov.len() ==> port_key(#[trigger] ov[a]) != port_key(rv[i]),
        0 <= p <= ov.len(),
        forall|a: int| p <= a < ov.len() ==> (#[trigger] ov[a]).0 > rv[i].0,
        p > 0 ==> ov[p - 1].0 <= rv[i].0,
    ensures
        collating(rv, ov.insert(p, rv[i]), i + 1),
{
    reveal(collating);
    let x = rv[i];
    let nv = ov.insert(p, x);
    assert(nv.len() == ov.len() + 1);
    assert forall|a: int| 0 <= a < nv.len() implies #[trigger] nv[a] == (if a < p {
        ov[a]
    } else if a == p {
        x
    } else {
        ov[a - 1]
    }) by {}
    assert forall|a: int, b: int| 0 <= a < b < nv.len() implies (#[trigger] nv[a]).0
        <= (#[trigger] nv[b]).0 by {
        if a < p && b == p {
            assert(ov[a].0 <= ov[p - 1].0);
        } else if a < p && b > p {
            assert(ov[a].0 <= ov[b - 1].0);
        } else if a == p && b > p {
            assert(ov[b - 1].0 > x.0);
        } else if a > p {
            assert(ov[a - 1].0 <= ov[b - 1].0);
        } else {
            assert(ov[a].0 <= ov[b].0);
        }
    }
    assert forall|a: int, b: int| 0 <= a < b < nv.len() implies port_key(#[trigger] nv[a])
        != port_key(#[trigger] nv[b]) by {
        if a == p {
            let bb = if b < p { b } else { b - 1 };
            assert(port_key(ov[bb]) != port_key(x));
        } else if b == p {
            assert(port_key(ov[a]) != port_key(x));
        } else {
            let aa = if a < p { a } else { a - 1 };
            let bb = if b < p { b } else { b - 1 };
            assert(port_key(ov[aa]) != port_key(ov[bb]));
        }
    }
    assert forall|a: int| 0 <= a < nv.len() implies kept_first(rv, #[trigger] nv[a], i + 1) by {
        if a == p {
            assert forall|k2: int| 0 <= k2 < i implies port_key(#[trigger] rv[k2]) != port_key(x) by {
                assert(has_key(ov, port_key(rv[k2])));
                let w = choose|w: int| 0 <= w < ov.len() && port_key(#[trigger] ov[w]) == port_key(rv[k2]);
                assert(port_key(ov[w]) != port_key(x));
            }
            assert(first_of_key(rv, nv[a], i));
        } else {
            let aa = if a < p { a } else { a - 1 };
            assert(nv[a] == ov[aa]);
            assert(kept_first(rv, ov[aa], i));
            let k = choose|k: int| k < i && #[trigger] first_of_key(rv, ov[aa], k);
            assert(first_of_key(rv, nv[a], k));
        }
    }
    assert forall|k: int| 0 <= k < i + 1 implies has_key(nv, port_key(#[trigger] rv[k])) by {
        if k == i {
            assert(port_key(nv[p]) == port_key(rv[k]));
        } else {
            assert(has_key(ov, port_key(rv[k])));
            let w = choose|w: int| 0 <= w < ov.len() && port_key(#[trigger] ov[w]) == port_key(rv[k]);
            let a = if w < p { w } else { w + 1 };
            assert(nv[a] == ov[w]);
        }
    }
}

proof fn lemma_collating_done(
    rv: Seq<(u16, u32, Seq<char>, Protocol)>,
    ov: Seq<(u16, u32, Seq<char>, Protocol)>,
)
    requires
        collating(rv, ov, rv.len() as int),
    ensures
        collated(rv, ov),
{
    reveal(collating);
}

fn copy_record(r: &PortRecord) -> (c: PortRecord)
    ensures
        port_view(c) == port_view(*r),
{
    PortRecord { port: r.port, pid: r.pid, name: r.name.clone(), protocol: r.protocol }
}

/// The records of `raw` sorted ascending by port, with repeated
/// (port, pid, protocol) triples collapsed to their first record.
pub fn collate_ports(raw: &Vec<PortRecord>) -> (r: Vec<PortRecord>)
    ensures
        collated(port_views(raw@), port_views(r@)),
{
    let ghost rv = port_views(raw@);
    let mut out: Vec<PortRecord> = Vec::new();
    let mut i: usize = 0;
    assert(collating(rv, port_views(out@), 0)) by {
        reveal(collating);
    }
    while i < raw.len()
        invariant
            rv == port_views(raw@),
            i <= raw@.len(),
            collating(rv, port_views(out@), i as int),
        decreases raw@.len() - i,
    {
        let ghost ov = port_views(out@);
        let rec = &raw[i];
        let ghost x = port_view(*rec);
        assert(rv[i as int] == x);
        let mut dup: bool = false;
        let mut j: usize = 0;
        while j < out.len()
            invariant
                ov == port_views(out@),
                j <= out@.len(),
                dup == (exists|a: int| 0 <= a < j && port_key(#[trigger] ov[a]) == port_key(x)),
                x == port_view(*rec),
            decreases out@.len() - j,
        {
            assert(ov[j as int] == port_view(out@[j as int]));
            if out[j].port == rec.port && out[j].pid == rec.pid && out[j].protocol == rec.protocol {
                assert(port_key(ov[j as int]) == port_key(x));
                dup = true;
            }
            j = j + 1;
        }
        if !dup {
            let mut p: usize = out.len();
            while p > 0 && out[p - 1].port > rec.port
                invariant
                    ov == port_views(out@),
                    p <= out@.len(),
                    x == port_view(*rec),
                    forall|a: int| p <= a < out@.len() ==> (#[trigger] ov[a]).0 > x.0,
                decreases p,
            {
                assert(ov[p - 1] == port_view(out@[p - 1]));
                p = p - 1;
            }
            proof {
                if p > 0 {
                    assert(ov[p - 1] == port_view(out@[p - 1]));
                }
                assert forall|a: int| 0 <= a < ov.len() implies port_key(#[trigger] ov[a])
                    != port_key(rv[i as int]) by {
                    if port_key(ov[a]) == port_key(x) {
                        assert(a < j);
                    }
                }
                lemma_collating_insert(rv, ov, i as int, p as int);
            }
            let c = copy_record(rec);
            out.insert(p, c);
            assert(port_views(out@) =~= ov.insert(p as int, x));
        } else {
            proof {
                reveal(collating);
                let w = choose|w: int| 0 <= w < j && port_key(#[trigger] ov[w]) == port_key(x);
                assert(port_key(ov[w]) == port_key(rv[i as int]));
                assert forall|a: int| 0 <= a < ov.len() implies kept_first(rv, #[trigger] ov[a], i + 1) by {
                    assert(kept_first(rv, ov[a], i as int));
                    let k = choose|k: int| k < i && #[trigger] first_of_key(rv, ov[a], k);
                    assert(first_of_key(rv, ov[a], k));
                }
                assert forall|k: int| 0 <= k < i + 1 implies has_key(ov, port_key(#[trigger] rv[k])) by {
                    if k == i {
                        assert(port_key(ov[w]) == port_key(rv[k]));
                    }
                }
                assert(collating(rv, ov, i + 1));
            }
        }
        i = i + 1;
    }
    proof {
        lemma_collating_done(rv, port_views(out@));
    }
    out
}

/// The listening sockets of the socket table's listing, each named from
/// the process table's CSV listing, sorted ascending by port with no
/// repeated (port, pid, protocol) triple.
pub fn listening_ports(tasklist_out: &str, netstat_out: &str) -> (r: Vec<PortRecord>)
    ensures
        collated(
            netstat_records(lines(netstat_out@), tasklist_table(lines(tasklist_out@))),
            port_views(r@),
        ),
        ports_ascending(port_views(r@)),
        port_keys_unique(port_views(r@)),
{
    let t = parse_tasklist(tasklist_out);
    let raw = parse_netstat(netstat_out, &t);
    collate_ports(&raw)
}

/// A row of the process list.
pub struct ProcessRecord {
    pub pid: u32,
    pub name: String,
    /// Memory use as the process table writes it, e.g. "12,345 K".
    pub memory: String,
}

pub open spec fn process_view(r: ProcessRecord) -> (u32, Seq<char>, Seq<char>) {
    (r.pid, r.name@, r.memory@)
}

pub open spec fn process_views(s: Seq<ProcessRecord>) -> Seq<(u32, Seq<char>, Seq<char>)> {
    s.map_values(|r: ProcessRecord| process_view(r))
}

/// `c` in lower case when it is an ASCII capital.
pub open spec fn ascii_lower(c: char) -> char {
    if 'A' <= c <= 'Z' {
        ((c as u8) + 32) as char
    } else {
        c
    }
}

/// `a` and `b` are equal but for ASCII case.
pub open spec fn same_ignoring_case(a: Seq<char>, b: Seq<char>) -> bool {
    a.len() == b.len() && forall|i: int| 0 <= i < a.len() ==> ascii_lower(#[trigger] a[i]) == ascii_lower(b[i])
}

/// The image names of the operating system's own processes, left out of
/// the process list.
pub open spec fn system_names() -> Seq<Seq<char>> {
    seq![
        "System Idle Process"@,
        "System"@,
        "Registry"@,
        "smss.exe"@,
        "csrss.exe"@,
        "wininit.exe"@,
        "services.exe"@,
        "lsass.exe"@,
        "svchost.exe"@,
        "fontdrvhost.exe"@,
        "dwm.exe"@,
        "winlogon.exe"@,
        "spoolsv.exe"@,
        "Memory Compression"@,
        "taskhostw.exe"@,
        "RuntimeBroker.exe"@,
        "SearchUI.exe"@,
        "ShellExperienceHost.exe"@,
        "ApplicationFrameHost.exe"@,
        "ctfmon.exe"@,
        "conhost.exe"@,
        "dllhost.exe"@,
        "sihost.exe"@,
        "SearchApp.exe"@,
        "StartMenuExperienceHost.exe"@,
        "TextInputHost.exe"@,
        "SecurityHealthService.exe"@,
        "NisSrv.exe"@,
        "MsMpEng.exe"@,
        "audiodg.exe"@
    ]
}

pub open spec fn is_system_process(name: Seq<char>) -> bool {
    exists|k: int| 0 <= k < system_names().len() && same_ignoring_case(#[trigger] system_names()[k], name)
}

/// The row one CSV line of the process table gives: lines of five fields
/// or more whose name is not a system process and whose second field is a
/// process id.
pub open spec fn process_entry(line: Seq<char>) -> Option<(u32, Seq<char>, Seq<char>)> {
    let f = split(line, csv_sep());
    if f.len() >= 5 && !is_system_process(trimmed(f[0], true)) {
        match parse_unsigned(trimmed(f[1], true), u32::MAX as nat) {
            Some(p) => Some((p as u32, trimmed(f[0], true), trimmed(f[4], true))),
            None => None,
        }
    } else {
        None
    }
}

/// The rows of the process table's lines, in order.
pub open spec fn process_rows(ls: Seq<Seq<char>>) -> Seq<(u32, Seq<char>, Seq<char>)>
    decreases ls.len(),
{
    if ls.len() == 0 {
        Seq::empty()
    } else {
        let t = process_rows(ls.drop_last());
        match process_entry(ls.last()) {
            Some(e) => t.push(e),
            None => t,
        }
    }
}

fn ascii_lower_char(c: char) -> (r: char)
    ensures
        r == ascii_lower(c),
{
    if 'A' <= c && c <= 'Z' {
        ((c as u8) + 32) as char
    } else {
        c
    }
}

fn eq_ignore_case(a: &Vec<char>, b: &Vec<char>) -> (r: bool)
    ensures
        r == same_ignoring_case(a@, b@),
{
    if a.len() != b.len() {
        return false;
    }
    let mut i: usize = 0;
    while i < a.len()
        invariant
            a@.len() == b@.len(),
            i <= a@.len(),
            forall|j: int| 0 <= j < i ==> ascii_lower(#[trigger] a@[j]) == ascii_lower(b@[j]),
        decreases a@.len() - i,
    {
        if ascii_lower_char(a[i]) != ascii_lower_char(b[i]) {
            return false;
        }
        i = i + 1;
    }
    true
}

fn system_name_list() -> (r: Vec<&'static str>)
    ensures
        r@.map_values(|n: &str| n@) == system_names(),
{
    let v = vec![
        "System Idle Process",
        "System",
        "Registry",
        "smss.exe",
        "csrss.exe",
        "wininit.exe",
        "services.exe",
        "lsass.exe",
        "svchost.exe",
        "fontdrvhost.exe",
        "dwm.exe",
        "winlogon.exe",
        "spoolsv.exe",
        "Memory Compression",
        "taskhostw.exe",
        "RuntimeBroker.exe",
        "SearchUI.exe",
        "ShellExperienceHost.exe",
        "ApplicationFrameHost.exe",
        "ctfmon.exe",
        "conhost.exe",
        "dllhost.exe",
        "sihost.exe",
        "SearchApp.exe",
        "StartMenuExperienceHost.exe",
        "TextInputHost.exe",
        "SecurityHealthService.exe",
        "NisSrv.exe",
        "MsMpEng.exe",
        "audiodg.exe"
    ];
    assert(v@.map_values(|n: &str| n@) =~= system_names());
    v
}

fn is_system_name(name: &Vec<char>) -> (r: bool)
    ensures
        r == is_system_process(name@),
{
    let list = system_name_list();
    let mut k: usize = 0;
    while k < list.len()
        invariant
            list@.map_values(|n: &str| n@) == system_names(),
            k <= list@.len(),
            forall|j: int| 0 <= j < k ==> !same_ignoring_case(#[trigger] system_names()[j], name@),
        decreases list@.len() - k,
    {
        let cand = chars_of(list[k]);
        assert(system_names()[k as int] == list@[k as int]@);
        if eq_ignore_case(&cand, name) {
            return true;
        }
        k = k + 1;
    }
    false
}

fn process_entry_of(line: &Vec<char>) -> (r: Option<ProcessRecord>)
    ensures
        match process_entry(line@) {
            Some(e) => r matches Some(x) && process_view(x) == e,
            None => r is None,
        },
{
    let sep = vec!['"', ',', '"'];
    assert(sep@ =~= csv_sep());
    let f = split_on(line, &sep);
    if f.len() < 5 {
        return None;
    }
    assert(views(f@)[0] == f@[0]@ && views(f@)[1] == f@[1]@ && views(f@)[4] == f@[4]@);
    let name = trim(&f[0], true);
    if is_system_name(&name) {
        return None;
    }
    let pid_text = trim(&f[1], true);
    match parse_uint(&pid_text, 4294967295u64) {
        Some(p) => {
            let memory = trim(&f[4], true);
            Some(ProcessRecord { pid: p as u32, name: string_of(&name), memory: string_of(&memory) })
        },
        None => None,
    }
}

/// The rows of the process table's CSV listing, in the order listed,
/// without the operating system's own processes.
pub fn parse_processes(out: &str) -> (r: Vec<ProcessRecord>)
    ensures
        process_views(r@) == process_rows(lines(out@)),
{
    let text = chars_of(out);
    let ls = split_lines(&text);
    let ghost lv = views(ls@);
    let mut r: Vec<ProcessRecord> = Vec::new();
    let mut i: usize = 0;
    assert(lv.subrange(0, 0) =~= Seq::<Seq<char>>::empty());
    assert(process_views(r@) =~= Seq::<(u32, Seq<char>, Seq<char>)>::empty());
    while i < ls.len()
        invariant
            lv == views(ls@),
            lv == lines(out@),
            i <= ls@.len(),
            process_views(r@) == process_rows(lv.subrange(0, i as int)),
        decreases ls@.len() - i,
    {
        let ghost old_r = r@;
        assert(lv.subrange(0, i + 1).drop_last() =~= lv.subrange(0, i as int));
        assert(lv[i as int] == ls@[i as int]@);
        match process_entry_of(&ls[i]) {
            Some(e) => {
                let ghost ev = process_view(e);
                r.push(e);
                assert(process_views(r@) =~= process_views(old_r).push(ev));
            },
            None => {},
        }
        i = i + 1;
    }
    assert(lv.subrange(0, i as int) =~= lv);
    r
}

/// `a` orders no later than `b`, character by character.
pub open spec fn lex_le(a: Seq<char>, b: Seq<char>) -> bool
    decreases a.len(),
{
    if a.len() == 0 {
        true
    } else if b.len() == 0 {
        false
    } else if a[0] != b[0] {
        a[0] < b[0]
    } else {
        lex_le(a.drop_first(), b.drop_first())
    }
}

proof fn lemma_lex_total(a: Seq<char>, b: Seq<char>)
    ensures
        lex_le(a, b) || lex_le(b, a),
    decreases a.len(),
{
    if a.len() > 0 && b.len() > 0 && a[0] == b[0] {
        lemma_lex_total(a.drop_first(), b.drop_first());
    }
}

proof fn lemma_lex_trans(a: Seq<char>, b: Seq<char>, c: Seq<char>)
    requires
        lex_le(a, b),
        lex_le(b, c),
    ensures
        lex_le(a, c),
    decreases a.len(),
{
    if a.len() > 0 && b.len() > 0 && c.len() > 0 && a[0] == b[0] && b[0] == c[0] {
        lemma_lex_trans(a.drop_first(), b.drop_first(), c.drop_first());
    }
}

fn lex_le_chars(a: &Vec<char>, b: &Vec<char>) -> (r: bool)
    ensures
        r == lex_le(a@, b@),
{
    let mut i: usize = 0;
    assert(a@.subrange(0, a@.len() as int) =~= a@);
    assert(b@.subrange(0, b@.len() as int) =~= b@);
    while i < a.len() && i < b.len() && a[i] == b[i]
        invariant
            i <= a@.len(),
            i <= b@.len(),
            lex_le(a@.subrange(i as int, a@.len() as int), b@.subrange(i as int, b@.len() as int))
                == lex_le(a@, b@),
        decreases a@.len() - i,
    {
        assert(a@.subrange(i as int, a@.len() as int).drop_first() =~= a@.subrange(i + 1, a@.len() as int));
        assert(b@.subrange(i as int, b@.len() as int).drop_first() =~= b@.subrange(i + 1, b@.len() as int));
        i = i + 1;
    }
    if i == a.len() {
        true
    } else if i == b.len() {
        false
    } else {
        a[i] < b[i]
    }
}

/// The sort key of a row: its name in lower case.
pub open spec fn name_key(v: (u32, Seq<char>, Seq<char>)) -> Seq<char> {
    lower_of(v.1)
}

pub open spec fn names_ascending(s: Seq<(u32, Seq<char>, Seq<char>)>) -> bool {
    forall|a: int, b: int| 0 <= a < b < s.len() ==> lex_le(name_key(#[trigger] s[a]), name_key(#[trigger] s[b]))
}

fn copy_process(r: &ProcessRecord) -> (c: ProcessRecord)
    ensures
        process_view(c) == process_view(*r),
{
    ProcessRecord { pid: r.pid, name: r.name.clone(), memory: r.memory.clone() }
}

/// `rows` sorted by name, ignoring case.
pub fn sort_processes(rows: &Vec<ProcessRecord>) -> (r: Vec<ProcessRecord>)
    ensures
        names_ascending(process_views(r@)),
        process_views(r@).to_multiset() == process_views(rows@).to_multiset(),
{
    let ghost rv = process_views(rows@);
    let mut out: Vec<ProcessRecord> = Vec::new();
    let mut keys: Vec<Vec<char>> = Vec::new();
    let mut i: usize = 0;
    proof {
        assert(process_views(out@) =~= rv.subrange(0, 0));
    }
    while i < rows.len()
        invariant
            rv == process_views(rows@),
            i <= rows@.len(),
            keys@.len() == out@.len(),
            forall|a: int| 0 <= a < keys@.len() ==> (#[trigger] keys@[a])@ == name_key(process_views(out@)[a]),
            names_ascending(process_views(out@)),
            process_views(out@).to_multiset() == rv.subrange(0, i as int).to_multiset(),
        decreases rows@.len() - i,
    {
        let ghost ov = process_views(out@);
        let row = &rows[i];
        let ghost x = process_view(*row);
        let key = chars_of(lowercase(row.name.as_str()).as_str());
        assert(key@ == name_key(x));
        let mut p: usize = out.len();
        while p > 0 && !lex_le_chars(&keys[p - 1], &key)
            invariant
                ov == process_views(out@),
                keys@.len() == out@.len(),
                forall|a: int| 0 <= a < keys@.len() ==> (#[trigger] keys@[a])@ == name_key(ov[a]),
                p <= out@.len(),
                forall|a: int| p <= a < ov.len() ==> !lex_le(name_key(#[trigger] ov[a]), key@),
            decreases p,
        {
            p = p - 1;
        }
        proof {
            let nv = ov.insert(p as int, x);
            assert forall|a: int, b: int| 0 <= a < b < nv.len() implies lex_le(
                name_key(#[trigger] nv[a]),
                name_key(#[trigger] nv[b]),
            ) by {
                if a < p && b == p {
                    assert(keys@[p - 1]@ == name_key(ov[p - 1]));
                    if a < p - 1 {
                        lemma_lex_trans(name_key(ov[a]), name_key(ov[p - 1]), key@);
                    }
                } else if a < p && b > p {
                    assert(nv[a] == ov[a] && nv[b] == ov[b - 1]);
                } else if a == p && b > p {
                    lemma_lex_total(name_key(ov[b - 1]), key@);
                } else if a > p {
                    assert(nv[a] == ov[a - 1] && nv[b] == ov[b - 1]);
                } else {
                    assert(nv[a] == ov[a] && nv[b] == ov[b]);
                }
            }
            assert(rv.subrange(0, i + 1) =~= rv.subrange(0, i as int).push(x));
            vstd::seq_lib::to_multiset_build(rv.subrange(0, i as int), x);
            vstd::seq_lib::to_multiset_insert(ov, p as int, x);
        }
        let c = copy_process(row);
        let ghost old_keys = keys@;
        out.insert(p, c);
        keys.insert(p, key);
        proof {
            assert(process_views(out@) =~= ov.insert(p as int, x));
            assert forall|a: int| 0 <= a < keys@.len() implies (#[trigger] keys@[a])@ == name_key(
                process_views(out@)[a],
            ) by {
                if a > p {
                    assert(keys@[a] == old_keys[a - 1]);
                }
            }
        }
        i = i + 1;
    }
    assert(rv.subrange(0, i as int) =~= rv);
    out
}

/// The process list of the process table's CSV listing: the operating
/// system's own processes left out, sorted by name ignoring case.
pub fn list_processes(out: &str) -> (r: Vec<ProcessRecord>)
    ensures
        names_ascending(process_views(r@)),
        process_views(r@).to_multiset() == process_rows(lines(out@)).to_multiset(),
{
    let rows = parse_processes(out);
    sort_processes(&rows)
}

} // verus!
