//! Remote hosts that serve a repository over HTTP, and the addresses of
//! their endpoints.
use crate::package::Package;
use crate::text::same_text;
use crate::version::format_version;
use vstd::prelude::*;
use vstd::string::*;

verus! {

/// A remote host.
#[derive(Clone, Debug, PartialEq, Eq, Hash, PartialOrd, Ord)]
pub struct Remote {
    /// The host's address, with an optional port.
    pub host: String,
}

/// The address of the archive of version `version` of package `name` on
/// `host`.
pub open spec fn archive_url(host: Seq<char>, name: Seq<char>, version: Seq<u32>) -> Seq<char> {
    "https://"@ + host + "/package/"@ + name + "/version/"@ + format_version(version)
        + "/archive"@
}

/// The address of the message of the day of `host`.
pub open spec fn motd_url(host: Seq<char>) -> Seq<char> {
    "https://"@ + host + "/motd"@
}

/// The address of the package list of `host`.
pub open spec fn list_url(host: Seq<char>) -> Seq<char> {
    "https://"@ + host + "/package"@
}

impl Remote {
    /// Creates the remote for `host`.
    pub fn new(host: String) -> (r: Remote)
        ensures
            r.host@ == host@,
    {
        Remote { host }
    }

    /// Returns the remote's host.
    pub fn get_host(&self) -> (r: &str)
        ensures
            r@ == self.host@,
    {
        self.host.as_str()
    }

    /// Returns the download address of the archive of `package`.
    pub fn download_url(&self, package: &Package) -> (r: String)
        ensures
            r@ == archive_url(self.host@, package.name@, package.version@),
    {
        proof {
            reveal_strlit("https://");
            reveal_strlit("/package/");
            reveal_strlit("/version/");
            reveal_strlit("/archive");
        }
        let mut out = String::from_str("https://");
        out.append(self.host.as_str());
        out.append("/package/");
        out.append(package.name.as_str());
        out.append("/version/");
        let v = package.version.to_string();
        out.append(v.as_str());
        out.append("/archive");
        out
    }

    /// Returns the address of the remote's message of the day.
    pub fn motd_url(&self) -> (r: String)
        ensures
            r@ == motd_url(self.host@),
    {
        let mut out = String::from_str("https://");
        out.append(self.host.as_str());
        out.append("/motd");
        out
    }

    /// Returns the address of the remote's package list.
    pub fn list_url(&self) -> (r: String)
        ensures
            r@ == list_url(self.host@),
    {
        let mut out = String::from_str("https://");
        out.append(self.host.as_str());
        out.append("/package");
        out
    }
}

/// Whether some remote of `list` has host `host`.
pub open spec fn has_host(list: Seq<Remote>, host: Seq<char>) -> bool {
    exists|k: int| 0 <= k < list.len() && (#[trigger] list[k]).host@ == host
}

/// Adds `remote` to the list of remotes unless one with the same host is
/// already there. Returns whether it was added.
pub fn add_remote(list: &mut Vec<Remote>, remote: Remote) -> (r: bool)
    ensures
        r == !has_host(old(list)@, remote.host@),
        r ==> final(list)@ == old(list)@.push(remote),
        !r ==> final(list)@ == old(list)@,
{
    let mut k: usize = 0;
    while k < list.len()
        invariant
            k <= list@.len(),
            forall|j: int| 0 <= j < k ==> (#[trigger] list@[j]).host@ != remote.host@,
        decreases list@.len() - k,
    {
        if same_text(list[k].host.as_str(), remote.host.as_str()) {
            return false;
        }
        k = k + 1;
    }
    list.push(remote);
    true
}

/// Removes the first remote with host `host` from the list. Returns whether
/// one was there.
pub fn remove_remote(list: &mut Vec<Remote>, host: &str) -> (r: bool)
    ensures
        r == has_host(old(list)@, host@),
        !r ==> final(list)@ == old(list)@,
        r ==> exists|k: int|
            0 <= k < old(list)@.len() && (#[trigger] old(list)@[k]).host@ == host@ && (forall|j: int|
                0 <= j < k ==> (#[trigger] old(list)@[j]).host@ != host@) && final(list)@ == old(
                list,
            )@.remove(k),
{
    let mut k: usize = 0;
    while k < list.len()
        invariant
            k <= list@.len(),
            list@ == old(list)@,
            forall|j: int| 0 <= j < k ==> (#[trigger] list@[j]).host@ != host@,
        decreases list@.len() - k,
    {
        if same_text(list[k].host.as_str(), host) {
            list.remove(k);
            return true;
        }
        k = k + 1;
    }
    false
}

/// The lines of `s` read so far: the completed non-empty lines, and the
/// line being read.
pub open spec fn scan_lines(s: Seq<char>) -> (Seq<Seq<char>>, Seq<char>)
    decreases s.len(),
{
    if s.len() == 0 {
        (Seq::<Seq<char>>::empty(), Seq::<char>::empty())
    } else {
        let (done, cur) = scan_lines(s.drop_last());
        if s.last() == '\n' {
            if cur.len() > 0 {
                (done.push(cur), Seq::<char>::empty())
            } else {
                (done, Seq::<char>::empty())
            }
        } else {
            (done, cur.push(s.last()))
        }
    }
}

/// The non-empty lines of `s`.
pub open spec fn nonempty_lines(s: Seq<char>) -> Seq<Seq<char>> {
    let (done, cur) = scan_lines(s);
    if cur.len() > 0 {
        done.push(cur)
    } else {
        done
    }
}

/// The text of a list of remotes: each host followed by a line break.
pub open spec fn remotes_text(list: Seq<Remote>) -> Seq<char>
    decreases list.len(),
{
    if list.len() == 0 {
        Seq::<char>::empty()
    } else {
        remotes_text(list.drop_last()) + list.last().host@ + seq!['\n']
    }
}

proof fn lemma_scan_text(s: Seq<char>, h: Seq<char>)
    requires
        scan_lines(s).1.len() == 0,
        forall|k: int| 0 <= k < h.len() ==> h[k] != '\n',
    ensures
        scan_lines(s + h) == (scan_lines(s).0, h),
    decreases h.len(),
{
    if h.len() == 0 {
        assert(s + h =~= s);
        assert(scan_lines(s).1 =~= h);
    } else {
        let p = h.drop_last();
        lemma_scan_text(s, p);
        assert((s + h).drop_last() =~= s + p);
        assert((s + h).last() == h.last());
        assert(p.push(h.last()) =~= h);
    }
}

/// Writing a list of remotes and reading the text back gives the same
/// hosts, when the hosts are different, none empty and none holding a line
/// break.
pub proof fn lemma_remotes_round_trip(list: Seq<Remote>)
    requires
        forall|k: int| 0 <= k < list.len() ==> (#[trigger] list[k]).host@.len() > 0,
        forall|k: int, j: int| 0 <= k < list.len() && 0 <= j < list[k].host@.len() ==> (
        #[trigger] list[k].host@[j]) != '\n',
        forall|a: int, b: int| 0 <= a < b < list.len() ==> (#[trigger] list[a]).host@ != (#[trigger] list[b]).host@,
    ensures
        dedup(nonempty_lines(remotes_text(list))) == list.map_values(|x: Remote| x.host@),
{
    lemma_scan_round_trip(list);
    let hs = list.map_values(|x: Remote| x.host@);
    assert forall|a: int, b: int| 0 <= a < b < hs.len() implies #[trigger] hs[a] != #[trigger] hs[b] by {
        assert(hs[a] == list[a].host@ && hs[b] == list[b].host@);
    }
    lemma_dedup_distinct(hs);
}

proof fn lemma_scan_round_trip(list: Seq<Remote>)
    requires
        forall|k: int| 0 <= k < list.len() ==> (#[trigger] list[k]).host@.len() > 0,
        forall|k: int, j: int| 0 <= k < list.len() && 0 <= j < list[k].host@.len() ==> (
        #[trigger] list[k].host@[j]) != '\n',
    ensures
        scan_lines(remotes_text(list)) == (list.map_values(|x: Remote| x.host@), Seq::<char>::empty()),
    decreases list.len(),
{
    if list.len() == 0 {
        assert(list.map_values(|x: Remote| x.host@) =~= Seq::<Seq<char>>::empty());
    } else {
        let p = list.drop_last();
        assert forall|k: int| 0 <= k < p.len() implies (#[trigger] p[k]).host@.len() > 0 by {
            assert(p[k] == list[k]);
        }
        assert forall|k: int, j: int| 0 <= k < p.len() && 0 <= j < p[k].host@.len() implies (
        #[trigger] p[k].host@[j]) != '\n' by {
            assert(p[k] == list[k]);
        }
        lemma_scan_round_trip(p);
        let h = list.last().host@;
        assert forall|j: int| 0 <= j < h.len() implies h[j] != '\n' by {
            assert(list[list.len() - 1].host@[j] != '\n');
        }
        lemma_scan_text(remotes_text(p), h);
        let t = remotes_text(list);
        assert(t.drop_last() =~= remotes_text(p) + h);
        assert(t.last() == '\n');
        assert(p.map_values(|x: Remote| x.host@).push(h) =~= list.map_values(|x: Remote| x.host@));
    }
}

/// The hosts of `s`, each kept at its first place only.
pub open spec fn dedup(s: Seq<Seq<char>>) -> Seq<Seq<char>>
    decreases s.len(),
{
    if s.len() == 0 {
        s
    } else {
        let p = dedup(s.drop_last());
        if p.contains(s.last()) {
            p
        } else {
            p.push(s.last())
        }
    }
}

/// Removing repeats from hosts that are all different changes nothing.
pub proof fn lemma_dedup_distinct(s: Seq<Seq<char>>)
    requires
        forall|a: int, b: int| 0 <= a < b < s.len() ==> #[trigger] s[a] != #[trigger] s[b],
    ensures
        dedup(s) == s,
    decreases s.len(),
{
    if s.len() > 0 {
        let p = s.drop_last();
        assert forall|a: int, b: int| 0 <= a < b < p.len() implies #[trigger] p[a] != #[trigger] p[b] by {
            assert(p[a] == s[a] && p[b] == s[b]);
        }
        lemma_dedup_distinct(p);
        if p.contains(s.last()) {
            let k = choose|k: int| 0 <= k < p.len() && p[k] == s.last();
            assert(s[k] == s[s.len() - 1]);
        }
        assert(p.push(s.last()) =~= s);
    }
}

/// Reads a list of remotes: the hosts of the non-empty lines of `text`, a
/// host given on several lines kept once, at its first place.
pub fn parse_remotes(text: &str) -> (r: Vec<Remote>)
    ensures
        r@.map_values(|x: Remote| x.host@) == dedup(nonempty_lines(text@)),
{
    let lines = read_lines(text);
    let ghost hs = lines@.map_values(|x: Remote| x.host@);
    let mut out: Vec<Remote> = Vec::new();
    let mut i: usize = 0;
    proof {
        assert(hs.subrange(0, 0) =~= Seq::<Seq<char>>::empty());
        assert(out@.map_values(|x: Remote| x.host@) =~= Seq::<Seq<char>>::empty());
    }
    while i < lines.len()
        invariant
            i <= lines@.len(),
            hs == lines@.map_values(|x: Remote| x.host@),
            out@.map_values(|x: Remote| x.host@) == dedup(hs.subrange(0, i as int)),
        decreases lines@.len() - i,
    {
        let ghost before = out@;
        let ghost bv = before.map_values(|x: Remote| x.host@);
        let r = Remote { host: lines[i].host.clone() };
        let added = add_remote(&mut out, r);
        proof {
            let sub = hs.subrange(0, i + 1);
            assert(sub.drop_last() =~= hs.subrange(0, i as int));
            assert(sub.last() == lines@[i as int].host@);
            assert(has_host(before, r.host@) == bv.contains(r.host@)) by {
                if has_host(before, r.host@) {
                    let k = choose|k: int| 0 <= k < before.len() && (#[trigger] before[k]).host@ == r.host@;
                    assert(bv[k] == r.host@);
                }
                if bv.contains(r.host@) {
                    let k = choose|k: int| 0 <= k < bv.len() && bv[k] == r.host@;
                    assert(before[k].host@ == r.host@);
                }
            }
            if added {
                assert(out@.map_values(|x: Remote| x.host@) =~= bv.push(r.host@));
            }
        }
        i = i + 1;
    }
    proof {
        assert(hs.subrange(0, i as int) =~= hs);
    }
    out
}

/// Reads the non-empty lines of `text`, one remote each.
fn read_lines(text: &str) -> (r: Vec<Remote>)
    ensures
        r@.map_values(|x: Remote| x.host@) == nonempty_lines(text@),
{
    let n = text.unicode_len();
    let mut out: Vec<Remote> = Vec::new();
    let mut cur = String::new();
    let mut i: usize = 0;
    proof {
        assert(text@.subrange(0, 0) =~= Seq::<char>::empty());
    }
    while i < n
        invariant
            n == text@.len(),
            i <= n,
            out@.map_values(|x: Remote| x.host@) == scan_lines(text@.subrange(0, i as int)).0,
            cur@ == scan_lines(text@.subrange(0, i as int)).1,
        decreases n - i,
    {
        let c = text.get_char(i);
        let ghost before = out@;
        proof {
            let p = text@.subrange(0, i + 1);
            assert(p.drop_last() =~= text@.subrange(0, i as int));
            assert(p.last() == c);
        }
        if c == '\n' {
            if cur.as_str().unicode_len() > 0 {
                let host = cur;
                cur = String::new();
                out.push(Remote { host });
                proof {
                    assert(out@.map_values(|x: Remote| x.host@) =~= before.map_values(|x: Remote| x.host@).push(
                        out@[out@.len() - 1].host@,
                    ));
                }
            } else {
                cur = String::new();
            }
        } else {
            let piece = text.substring_char(i, i + 1);
            cur.append(piece);
            proof {
                assert(piece@ =~= seq![c]);
            }
        }
        i = i + 1;
    }
    proof {
        assert(text@.subrange(0, n as int) =~= text@);
    }
    if cur.as_str().unicode_len() > 0 {
        let ghost before = out@;
        out.push(Remote { host: cur });
        proof {
            assert(out@.map_values(|x: Remote| x.host@) =~= before.map_values(|x: Remote| x.host@).push(
                out@[out@.len() - 1].host@,
            ));
        }
    }
    out
}

/// Writes a list of remotes: each host followed by a line break.
pub fn format_remotes(list: &Vec<Remote>) -> (r: String)
    ensures
        r@ == remotes_text(list@),
{
    let mut out = String::new();
    let mut k: usize = 0;
    while k < list.len()
        invariant
            k <= list@.len(),
            out@ == remotes_text(list@.subrange(0, k as int)),
        decreases list@.len() - k,
    {
        proof {
            assert(list@.subrange(0, k + 1).drop_last() =~= list@.subrange(0, k as int));
            reveal_strlit("\n");
        }
        out.append(list[k].host.as_str());
        out.append("\n");
        k = k + 1;
    }
    proof {
        assert(list@.subrange(0, k as int) =~= list@);
    }
    out
}

} // verus!
