//! Binds: which host path stands behind a guest path.
//!
//! A bind is a pair `(host, guest)`. A path that is the guest path, or lies below it, is served
//! from the host path instead.
use vstd::prelude::*;
use vstd::string::*;
use vstd::utf8::*;

use crate::text;
use crate::text::SLASH;

verus! {

/// What to run, and the binds that hold while it runs.
pub struct Args {
    /// The command line, for a shell.
    pub command: String,
    /// The binds, each a pair of a host path and a guest path.
    pub binds: Vec<(String, String)>,
}

/// A list of binds as character sequences: pairs of a host path and a guest path.
pub type Binds = Seq<(Seq<char>, Seq<char>)>;

/// The characters of a list of binds.
pub open spec fn bind_views(binds: Seq<(String, String)>) -> Binds {
    Seq::new(binds.len(), |i: int| (binds[i].0@, binds[i].1@))
}

/// What is left of `path` below `guest`, or `None` if `path` does not lie there.
///
/// A path lies below a guest path that starts it if the two meet at a `/`, or are equal.
/// Nothing lies below the empty guest path.
pub open spec fn suffix_of(path: Seq<char>, guest: Seq<char>) -> Option<Seq<char>> {
    let rest = path.skip(guest.len() as int);
    if guest.len() > 0 && guest.is_prefix_of(path) && (rest.len() == 0 || guest.last() == '/'
        || rest[0] == '/') {
        Some(rest)
    } else {
        None
    }
}

/// Whether bind `i` covers `path`.
pub open spec fn covers(path: Seq<char>, binds: Binds, i: int) -> bool {
    0 <= i < binds.len() && suffix_of(path, binds[i].1) is Some
}

/// Whether bind `i` is the one that serves `path`: the first of those with the longest guest path
/// among the binds that cover it.
pub open spec fn serves(path: Seq<char>, binds: Binds, i: int) -> bool {
    &&& covers(path, binds, i)
    &&& forall|j: int| #[trigger]
        covers(path, binds, j) ==> binds[j].1.len() < binds[i].1.len() || (binds[j].1.len()
            == binds[i].1.len() && i <= j)
}

/// The host path with `suffix` below it: exactly one `/` is put in where neither side has one.
pub open spec fn joined(host: Seq<char>, suffix: Seq<char>) -> Seq<char> {
    if suffix.len() == 0 {
        host
    } else if (host.len() > 0 && host.last() == '/') || suffix[0] == '/' {
        host + suffix
    } else {
        host + seq!['/'] + suffix
    }
}

/// The host path behind `path`, or `None` if no bind covers it.
pub open spec fn resolved(path: Seq<char>, binds: Binds) -> Option<Seq<char>> {
    if exists|i: int| serves(path, binds, i) {
        let i = choose|i: int| serves(path, binds, i);
        Some(joined(binds[i].0, suffix_of(path, binds[i].1)->0))
    } else {
        None
    }
}

/// Whether `bytes` starts with `prefix`.
fn bytes_start_with(bytes: &[u8], prefix: &[u8]) -> (r: bool)
    ensures
        r == prefix@.is_prefix_of(bytes@),
{
    if bytes.len() < prefix.len() {
        return false;
    }
    let mut i: usize = 0;
    while i < prefix.len()
        invariant
            i <= prefix.len() <= bytes.len(),
            forall|j: int| 0 <= j < i ==> prefix@[j] == bytes@[j],
        decreases prefix.len() - i,
    {
        if bytes[i] != prefix[i] {
            return false;
        }
        i += 1;
    }
    true
}

/// Whether `s` ends with `/`.
fn ends_with_slash(s: &str) -> (r: bool)
    ensures
        r == (s@.len() > 0 && s@.last() == '/'),
{
    let bytes = s.as_bytes();
    proof {
        text::lemma_encode_nonempty(s@);
        if s@.len() > 0 {
            text::lemma_last_slash(s@);
        }
    }
    bytes.len() > 0 && bytes[bytes.len() - 1] == SLASH
}

/// Whether `s` starts with `/`.
fn starts_with_slash(s: &str) -> (r: bool)
    ensures
        r == (s@.len() > 0 && s@[0] == '/'),
{
    let bytes = s.as_bytes();
    proof {
        text::lemma_encode_nonempty(s@);
        if s@.len() > 0 {
            text::lemma_first_slash(s@);
        }
    }
    bytes.len() > 0 && bytes[0] == SLASH
}

/// What is left of `path` below `guest`, or `None` if `path` does not lie there.
pub fn path_suffix<'a>(path: &'a str, guest: &str) -> (r: Option<&'a str>)
    ensures
        r is Some <==> suffix_of(path@, guest@) is Some,
        r matches Some(s) ==> suffix_of(path@, guest@) == Some(s@),
{
    let p = path.as_bytes();
    let g = guest.as_bytes();
    proof {
        text::lemma_byte_prefix(path@, guest@);
        text::lemma_encode_nonempty(path@.skip(guest@.len() as int));
    }
    if guest.is_empty() || !bytes_start_with(p, g) {
        return None;
    }
    let (_, rest) = path.split_at(g.len());
    proof {
        text::lemma_encode_injective(rest@, path@.skip(guest@.len() as int));
    }
    if rest.is_empty() || ends_with_slash(guest) || starts_with_slash(rest) {
        Some(rest)
    } else {
        None
    }
}

/// `host` with `suffix` below it.
fn join(host: &str, suffix: &str) -> (r: String)
    ensures
        r@ == joined(host@, suffix@),
        host@.is_prefix_of(r@),
        suffix@.is_suffix_of(r@),
        r@.len() <= host@.len() + suffix@.len() + 1,
{
    let mut out = host.to_owned();
    if suffix.is_empty() {
        return out;
    }
    if !ends_with_slash(host) && !starts_with_slash(suffix) {
        proof {
            reveal_strlit("/");
        }
        out.append("/");
        assert("/"@ =~= seq!['/']);
    }
    out.append(suffix);
    out
}

/// Two guest paths that both start `path` compare in bytes as they do in characters.
proof fn lemma_prefix_lengths(path: Seq<char>, a: Seq<char>, b: Seq<char>)
    requires
        a.is_prefix_of(path),
        b.is_prefix_of(path),
    ensures
        a.len() < b.len() <==> encode_utf8(a).len() < encode_utf8(b).len(),
{
    let (short, long) = if a.len() < b.len() {
        (a, b)
    } else {
        (b, a)
    };
    let rest = long.skip(short.len() as int);
    assert(short + rest =~= long);
    text::lemma_encode_concat(short, rest);
    text::lemma_encode_nonempty(rest);
}

/// The host path behind `path`, or `None` if no bind covers it. The bind with the longest guest
/// path decides; of several with that guest path, the first.
pub fn resolve_bind(path: &str, binds: &[(String, String)]) -> (r: Option<String>)
    ensures
        r is Some <==> resolved(path@, bind_views(binds@)) is Some,
        r matches Some(s) ==> resolved(path@, bind_views(binds@)) == Some(s@),
        r is None <==> forall|i: int| !covers(path@, bind_views(binds@), i),
        forall|i: int| #[trigger]
            serves(path@, bind_views(binds@), i) ==> {
                &&& r matches Some(s)
                &&& s@ == joined(binds[i].0@, suffix_of(path@, binds[i].1@)->0)
            },
{
    let ghost views = bind_views(binds@);
    let mut best: Option<(&str, &str)> = None;
    let mut best_suffix: &str = path;
    let ghost mut at: int = 0;
    let mut i: usize = 0;
    while i < binds.len()
        invariant
            i <= binds.len(),
            views == bind_views(binds@),
            best is None ==> forall|j: int| 0 <= j < i ==> !#[trigger] covers(path@, views, j),
            best matches Some((host, guest)) ==> {
                &&& 0 <= at < i
                &&& covers(path@, views, at)
                &&& host@ == views[at].0
                &&& guest@ == views[at].1
                &&& suffix_of(path@, guest@) == Some(best_suffix@)
                &&& forall|j: int|
                    0 <= j < i && #[trigger] covers(path@, views, j) ==> views[j].1.len()
                        < views[at].1.len() || (views[j].1.len() == views[at].1.len() && at <= j)
            },
        decreases binds.len() - i,
    {
        let host = binds[i].0.as_str();
        let guest = binds[i].1.as_str();
        assert(views[i as int] == (host@, guest@));
        if let Some(suffix) = path_suffix(path, guest) {
            assert(covers(path@, views, i as int));
            let take = match best {
                None => true,
                Some((_, best_guest)) => {
                    proof {
                        lemma_prefix_lengths(path@, best_guest@, guest@);
                    }
                    guest.as_bytes().len() > best_guest.as_bytes().len()
                },
            };
            if take {
                best = Some((host, guest));
                best_suffix = suffix;
                proof {
                    at = i as int;
                }
            }
        }
        i += 1;
    }
    match best {
        None => {
            assert(resolved(path@, views) is None) by {
                if exists|j: int| serves(path@, views, j) {
                    let j = choose|j: int| serves(path@, views, j);
                    assert(covers(path@, views, j));
                }
            }
            assert(forall|j: int| #[trigger] serves(path@, views, j) ==> covers(path@, views, j));
            None
        },
        Some((host, _)) => {
            proof {
                assert(serves(path@, views, at));
                assert forall|j: int| #[trigger] serves(path@, views, j) implies j == at by {
                    law_serves_unique(path@, views, at, j);
                }
            }
            Some(join(host, best_suffix))
        },
    }
}

/// At most one bind serves a path.
pub proof fn law_serves_unique(path: Seq<char>, binds: Binds, i: int, j: int)
    requires
        serves(path, binds, i),
        serves(path, binds, j),
    ensures
        i == j,
{
    assert(covers(path, binds, i) && covers(path, binds, j));
}

/// Of the binds that cover a path, one is the first of those with the longest guest path.
proof fn lemma_serves_exists(path: Seq<char>, binds: Binds, n: int) -> (best: int)
    requires
        0 <= n <= binds.len(),
        exists|i: int| 0 <= i < n && covers(path, binds, i),
    ensures
        best < n,
        covers(path, binds, best),
        forall|j: int|
            j < n && #[trigger] covers(path, binds, j) ==> binds[j].1.len() < binds[best].1.len()
                || (binds[j].1.len() == binds[best].1.len() && best <= j),
    decreases n,
{
    if exists|i: int| 0 <= i < n - 1 && covers(path, binds, i) {
        let best = lemma_serves_exists(path, binds, n - 1);
        if covers(path, binds, n - 1) && binds[n - 1].1.len() > binds[best].1.len() {
            n - 1
        } else {
            best
        }
    } else {
        n - 1
    }
}

/// A path is served exactly if some bind covers it.
pub proof fn law_covered_is_served(path: Seq<char>, binds: Binds)
    ensures
        resolved(path, binds) is Some <==> exists|i: int| covers(path, binds, i),
{
    if exists|i: int| covers(path, binds, i) {
        let i = choose|i: int| covers(path, binds, i);
        assert(0 <= i < binds.len() && covers(path, binds, i));
        let best = lemma_serves_exists(path, binds, binds.len() as int);
        assert(serves(path, binds, best));
    }
    if exists|i: int| serves(path, binds, i) {
        let i = choose|i: int| serves(path, binds, i);
        assert(covers(path, binds, i));
    }
}

/// The host path behind a path is that of the bind that serves it, with the rest of the path
/// below it.
pub proof fn law_resolved_by(path: Seq<char>, binds: Binds, i: int)
    requires
        serves(path, binds, i),
    ensures
        resolved(path, binds) == Some(joined(binds[i].0, suffix_of(path, binds[i].1)->0)),
{
    let j = choose|j: int| serves(path, binds, j);
    law_serves_unique(path, binds, i, j);
}

/// A path lies below a guest path exactly if it is the guest path with something behind it that
/// is empty or parted from it by a `/`; that is then what is left of it.
pub proof fn law_suffix(guest: Seq<char>, rest: Seq<char>)
    requires
        guest.len() > 0,
    ensures
        suffix_of(guest + rest, guest) == if rest.len() == 0 || guest.last() == '/' || rest[0]
            == '/' {
            Some(rest)
        } else {
            None
        },
{
    assert((guest + rest).skip(guest.len() as int) =~= rest);
}

/// What is left of a path below a guest path makes the path again, put behind the guest path.
pub proof fn law_suffix_splits(path: Seq<char>, guest: Seq<char>)
    ensures
        suffix_of(path, guest) matches Some(rest) ==> path == guest + rest,
{
    if suffix_of(path, guest) is Some {
        assert(path =~= guest + path.skip(guest.len() as int));
    }
}

/// The host path stands behind its guest path, whatever the other binds. This leaves out the
/// empty guest path, and one that an earlier bind has too.
pub proof fn law_guest_resolves_to_host(binds: Binds, i: int)
    requires
        0 <= i < binds.len(),
        binds[i].1.len() > 0,
        forall|j: int| 0 <= j < i ==> #[trigger] binds[j].1 != binds[i].1,
    ensures
        resolved(binds[i].1, binds) == Some(binds[i].0),
{
    let path = binds[i].1;
    assert(path.skip(path.len() as int) =~= Seq::<char>::empty());
    assert(covers(path, binds, i));
    assert forall|j: int| #[trigger] covers(path, binds, j) implies binds[j].1.len()
        < binds[i].1.len() || (binds[j].1.len() == binds[i].1.len() && i <= j) by {
        if binds[j].1.len() == path.len() {
            assert(binds[j].1 =~= path);
        }
    }
    assert(serves(path, binds, i));
    law_resolved_by(path, binds, i);
}

/// The order of binds plays no part where no two have the same guest path.
pub proof fn law_order_irrelevant(path: Seq<char>, a: Binds, b: Binds)
    requires
        forall|i: int| 0 <= i < a.len() ==> b.contains(#[trigger] a[i]),
        forall|i: int| 0 <= i < b.len() ==> a.contains(#[trigger] b[i]),
        forall|i: int, j: int|
            0 <= i < b.len() && 0 <= j < b.len() && i != j ==> (#[trigger] b[i]).1 != (
            #[trigger] b[j]).1,
    ensures
        resolved(path, a) == resolved(path, b),
{
    law_covered_is_served(path, a);
    law_covered_is_served(path, b);
    if exists|i: int| covers(path, a, i) {
        let i = choose|i: int| serves(path, a, i);
        let k = choose|k: int| 0 <= k < b.len() && b[k] == a[i];
        assert(b.contains(a[i]));
        assert(covers(path, a, i));
        assert(covers(path, b, k));
        assert forall|j: int| #[trigger] covers(path, b, j) implies b[j].1.len() < b[k].1.len() || (
        b[j].1.len() == b[k].1.len() && k <= j) by {
            assert(a.contains(b[j]));
            let m = choose|m: int| 0 <= m < a.len() && a[m] == b[j];
            assert(covers(path, a, m));
            if b[j].1.len() == b[k].1.len() {
                assert(b[j].1 =~= b[k].1);
            }
        }
        assert(serves(path, b, k));
        law_resolved_by(path, b, k);
    } else if exists|i: int| covers(path, b, i) {
        let i = choose|i: int| covers(path, b, i);
        assert(a.contains(b[i]));
        let m = choose|m: int| 0 <= m < a.len() && a[m] == b[i];
        assert(covers(path, a, m));
    }
}

/// Of the binds that cover a path, the one with the longest guest path decides.
pub proof fn law_longest_guest_wins(path: Seq<char>, binds: Binds, i: int)
    requires
        covers(path, binds, i),
        forall|j: int| #[trigger] covers(path, binds, j) && j != i ==> binds[j].1.len()
            < binds[i].1.len(),
    ensures
        resolved(path, binds) == Some(joined(binds[i].0, suffix_of(path, binds[i].1)->0)),
{
    assert(serves(path, binds, i));
    law_resolved_by(path, binds, i);
}

/// A bind of the root covers every path from the root on, and puts the host path before it.
pub proof fn law_root_guest(path: Seq<char>, host: Seq<char>)
    requires
        path.len() > 0,
        path[0] == '/',
    ensures
        resolved(path, seq![(host, seq!['/'])]) == Some(joined(host, path.skip(1))),
{
    let binds: Binds = seq![(host, seq!['/'])];
    assert(covers(path, binds, 0));
    assert(serves(path, binds, 0));
    law_resolved_by(path, binds, 0);
}

/// A path that is the guest path of a bind with `rest` behind it, met at a `/`, stands for the
/// host path of that bind with the whole of `rest` behind it, however long it is. A `/` is put
/// between the two where there is none on either side. This is so unless another bind has a longer
/// guest path that starts the path in this way too, or an earlier one an equal guest path.
pub proof fn law_host_path_keeps_rest(binds: Binds, i: int, rest: Seq<char>)
    requires
        0 <= i < binds.len(),
        binds[i].1.len() > 0,
        rest.len() == 0 || binds[i].1.last() == '/' || rest[0] == '/',
        forall|j: int, behind: Seq<char>|
            0 <= j < binds.len() && binds[j].1.len() > 0 && #[trigger] (binds[j].1 + behind)
                == binds[i].1 + rest && (behind.len() == 0 || binds[j].1.last() == '/' || behind[0]
                == '/') ==> binds[j].1.len() < binds[i].1.len() || (binds[j].1.len()
                == binds[i].1.len() && i <= j),
    ensures
        ({
            let (host, guest) = binds[i];
            &&& rest.len() == 0 ==> resolved(guest + rest, binds) == Some(host)
            &&& rest.len() > 0 && (rest[0] == '/' || (host.len() > 0 && host.last() == '/'))
                ==> resolved(guest + rest, binds) == Some(host + rest)
            &&& rest.len() > 0 && rest[0] != '/' && !(host.len() > 0 && host.last() == '/')
                ==> resolved(guest + rest, binds) == Some(host + seq!['/'] + rest)
        }),
{
    let path = binds[i].1 + rest;
    law_suffix(binds[i].1, rest);
    assert(covers(path, binds, i));
    assert forall|j: int| #[trigger] covers(path, binds, j) implies binds[j].1.len()
        < binds[i].1.len() || (binds[j].1.len() == binds[i].1.len() && i <= j) by {
        law_suffix_splits(path, binds[j].1);
        let behind = suffix_of(path, binds[j].1)->0;
        assert(binds[j].1 + behind == binds[i].1 + rest);
    }
    assert(serves(path, binds, i));
    law_resolved_by(path, binds, i);
}

/// A path has no host path behind it exactly if no bind has a guest path that, not empty, starts
/// the path and meets the rest of it at a `/` or its end.
pub proof fn law_no_host_path(path: Seq<char>, binds: Binds)
    ensures
        resolved(path, binds) is None <==> forall|i: int, rest: Seq<char>|
            0 <= i < binds.len() && path == #[trigger] (binds[i].1 + rest) ==> binds[i].1.len() == 0
                || (rest.len() > 0 && binds[i].1.last() != '/' && rest[0] != '/'),
{
    law_covered_is_served(path, binds);
    if resolved(path, binds) is None {
        assert forall|i: int, rest: Seq<char>|
            0 <= i < binds.len() && path == #[trigger] (binds[i].1
                + rest) implies binds[i].1.len() == 0 || (rest.len() > 0 && binds[i].1.last() != '/'
            && rest[0] != '/') by {
            if binds[i].1.len() > 0 {
                law_suffix(binds[i].1, rest);
                assert(!covers(path, binds, i));
            }
        }
    } else {
        let i = choose|i: int| covers(path, binds, i);
        law_suffix_splits(path, binds[i].1);
        let rest = suffix_of(path, binds[i].1)->0;
        assert(path == binds[i].1 + rest);
    }
}

/// A bind can be undone: the host path behind a path stands for that path again under the same
/// bind turned round. This leaves out empty paths and those that end with a `/`.
pub proof fn law_bind_undone(host: Seq<char>, guest: Seq<char>, path: Seq<char>)
    requires
        host.len() > 0,
        host.last() != '/',
        guest.len() > 0,
        guest.last() != '/',
        resolved(path, seq![(host, guest)]) is Some,
    ensures
        resolved(resolved(path, seq![(host, guest)])->0, seq![(guest, host)]) == Some(path),
{
    let there: Binds = seq![(host, guest)];
    let back: Binds = seq![(guest, host)];
    law_no_host_path(path, there);
    let (i, rest) = choose|i: int, rest: Seq<char>|
        0 <= i < there.len() && path == #[trigger] (there[i].1 + rest) && !(there[i].1.len() == 0
            || (rest.len() > 0 && there[i].1.last() != '/' && rest[0] != '/'));
    law_host_path_keeps_rest(there, 0, rest);
    law_host_path_keeps_rest(back, 0, rest);
    if rest.len() == 0 {
        assert(host + rest =~= host);
        assert(guest + rest =~= guest);
    }
}

/// What is left of a path below a guest path is what makes the path again behind it. Nothing is
/// left below the empty guest path, nor below one that does not start the path, or starts it
/// without a `/` or the end of the path behind.
pub proof fn law_suffix_below(path: Seq<char>, guest: Seq<char>, rest: Seq<char>)
    ensures
        suffix_of(path, guest) == Some(rest) <==> {
            &&& guest.len() > 0
            &&& path == guest + rest
            &&& rest.len() == 0 || guest.last() == '/' || rest[0] == '/'
        },
{
    law_suffix_splits(path, guest);
    if guest.len() > 0 {
        law_suffix(guest, rest);
        if suffix_of(path, guest) is Some {
            law_suffix(guest, suffix_of(path, guest)->0);
        }
    }
}

/// A list of binds is looked at as it stands: all of its pairs, in their order, each with its host
/// path and its guest path.
pub proof fn law_bind_views(binds: Seq<(String, String)>, i: int)
    requires
        0 <= i < binds.len(),
    ensures
        bind_views(binds).len() == binds.len(),
        bind_views(binds)[i].0 == binds[i].0@,
        bind_views(binds)[i].1 == binds[i].1@,
{
}

} // verus!
