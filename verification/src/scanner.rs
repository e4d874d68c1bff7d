//! The scanner's result: the files that processes have mapped executably,
//! grouped by the mount namespace of the process. A scan is built up process
//! by process and line by line, and is a fresh snapshot each cycle.

use vstd::prelude::*;
use crate::assoc::{distinct_keys, has_key, index_of, lemma_entry, lemma_push, lemma_update, to_map};
use crate::maps::{classify, lemma_named_path, spec_classify, LineKind, MapsLine};
use crate::namespace::{spec_token_for, NamespaceToken, TokenView};
use crate::paths::PathSet;
use crate::procfs::{examine, link_view, spec_verdict, Failure, Verdict};

verus! {

/// The files found so far, by namespace link target.
pub type Files = Map<Seq<char>, Set<Seq<char>>>;

/// The files of a finished scan, by namespace token.
pub type Discovery = Map<TokenView, Set<Seq<char>>>;

/// A scan in progress, as the contracts see it.
pub struct ScanView {
    /// The namespace link target of the scanning process, once seen.
    pub own: Option<Seq<char>>,
    /// The files found so far.
    pub files: Files,
}

/// The files after the maps of a process in namespace `link` were opened: the
/// namespace is listed, at first without files.
pub open spec fn spec_open(files: Files, link: Seq<char>) -> Files {
    if files.dom().contains(link) {
        files
    } else {
        files.insert(link, Set::empty())
    }
}

/// The files after `path` was found mapped in namespace `link`.
pub open spec fn spec_insert(files: Files, link: Seq<char>, path: Seq<char>) -> Files {
    spec_open(files, link).insert(link, spec_open(files, link)[link].insert(path))
}

/// The files after a line of the maps of a process in namespace `link` was
/// read: only a line that shows an executable region of a file with an
/// absolute path adds that path; every other line changes nothing.
pub open spec fn spec_record(files: Files, link: Seq<char>, line: Seq<char>) -> Files {
    match spec_classify(line) {
        LineKind::Executable(path) => spec_insert(files, link, path),
        _ => files,
    }
}

/// The link target that a token stands for in a scan whose own namespace has
/// link target `own`.
pub open spec fn spec_link_of(own: Option<Seq<char>>, token: TokenView) -> Seq<char> {
    match token {
        TokenView::Named(link) => link,
        TokenView::Own => match own {
            Some(link) => link,
            None => Seq::empty(),
        },
    }
}

/// What a finished scan hands to the dispatcher: each namespace under its
/// token, the scanner's own under `Own`, with the files found in it.
pub open spec fn spec_discovery(scan: ScanView) -> Discovery {
    Map::new(
        |t: TokenView|
            scan.files.dom().contains(spec_link_of(scan.own, t)) && spec_token_for(
                scan.own,
                spec_link_of(scan.own, t),
            ) == t,
        |t: TokenView| scan.files[spec_link_of(scan.own, t)],
    )
}

struct Bucket {
    link: String,
    paths: PathSet,
}

spec fn keyed(buckets: Seq<Bucket>) -> Seq<(Seq<char>, Set<Seq<char>>)> {
    Seq::new(buckets.len(), |i: int| (buckets[i].link@, buckets[i].paths@))
}

spec fn sound(buckets: Seq<Bucket>) -> bool {
    &&& distinct_keys(keyed(buckets))
    &&& forall|i: int| 0 <= i < buckets.len() ==> (#[trigger] buckets[i]).paths.wf()
}

/// A scan in progress.
pub struct Scan {
    own: Option<String>,
    buckets: Vec<Bucket>,
}

impl View for Scan {
    type V = ScanView;

    closed spec fn view(&self) -> ScanView {
        ScanView {
            own: match self.own {
                Some(link) => Some(link@),
                None => None,
            },
            files: to_map(keyed(self.buckets@)),
        }
    }
}

impl Scan {
    /// No namespace is listed twice, and no file twice in a namespace.
    pub closed spec fn wf(&self) -> bool {
        sound(self.buckets@)
    }

    /// A scan that has seen nothing yet.
    pub fn new() -> (scan: Scan)
        ensures
            scan.wf(),
            scan@.own is None,
            scan@.files == Map::<Seq<char>, Set<Seq<char>>>::empty(),
    {
        let scan = Scan { own: None, buckets: Vec::new() };
        assert(scan@.files =~= Map::<Seq<char>, Set<Seq<char>>>::empty());
        scan
    }

    /// Decides what to do with process `pid`, given what reading its two
    /// links gave, and takes note of the scanner's own namespace when the
    /// process is the scanner itself and both links were read.
    pub fn visit(
        &mut self,
        pid: u32,
        own_pid: u32,
        exe: &Result<String, Failure>,
        ns: &Result<String, Failure>,
        own_exe: &str,
    ) -> (verdict: Verdict)
        requires
            old(self).wf(),
        ensures
            final(self).wf(),
            verdict == spec_verdict(link_view(*exe), link_view(*ns), own_exe@),
            final(self)@.files == old(self)@.files,
            final(self)@.own == if pid == own_pid && exe is Ok && ns is Ok {
                Some(ns->Ok_0@)
            } else {
                old(self)@.own
            },
    {
        let verdict = examine(exe, ns, own_exe);
        if pid == own_pid {
            match (exe, ns) {
                (Ok(_), Ok(link)) => {
                    self.own = Some(link.clone());
                },
                _ => {},
            }
        }
        verdict
    }

    fn find(&self, key: &String) -> (at: Option<usize>)
        ensures
            match at {
                Some(i) => i < self.buckets.len() && self.buckets[i as int].link@ == key@,
                None => !has_key(keyed(self.buckets@), key@),
            },
    {
        let mut i: usize = 0;
        while i < self.buckets.len()
            invariant
                i <= self.buckets.len(),
                forall|k: int| 0 <= k < i ==> (#[trigger] keyed(self.buckets@)[k]).0 != key@,
            decreases self.buckets.len() - i,
        {
            if self.buckets[i].link == *key {
                return Some(i);
            }
            i += 1;
        }
        None
    }

    fn bucket_at(&mut self, link: &str) -> (at: usize)
        requires
            old(self).wf(),
        ensures
            final(self).wf(),
            final(self)@.own == old(self)@.own,
            final(self)@.files == spec_open(old(self)@.files, link@),
            at < final(self).buckets.len(),
            final(self).buckets[at as int].link@ == link@,
    {
        let key = link.to_owned();
        match self.find(&key) {
            Some(i) => {
                proof {
                    lemma_entry(keyed(self.buckets@), i as int);
                }
                i
            },
            None => {
                let ghost before = self.buckets@;
                let bucket = Bucket { link: key, paths: PathSet::new() };
                self.buckets.push(bucket);
                proof {
                    assert(keyed(self.buckets@) =~= keyed(before).push((link@, Set::empty())));
                    lemma_push(keyed(before), link@, Set::empty());
                }
                self.buckets.len() - 1
            },
        }
    }

    /// Takes note that the maps of a process in namespace `link` were opened:
    /// from now on the namespace is listed, even if no file is found in it.
    pub fn open(&mut self, link: &str)
        requires
            old(self).wf(),
        ensures
            final(self).wf(),
            final(self)@.own == old(self)@.own,
            final(self)@.files == spec_open(old(self)@.files, link@),
    {
        let _ = self.bucket_at(link);
    }

    /// Reads one line of the maps of a process in namespace `link`, files
    /// the path if the line shows an executable region of a file, and says
    /// what the line was.
    pub fn record(&mut self, link: &str, line: &str) -> (kind: MapsLine)
        requires
            old(self).wf(),
        ensures
            final(self).wf(),
            kind@ == spec_classify(line@),
            final(self)@.own == old(self)@.own,
            final(self)@.files == spec_record(old(self)@.files, link@, line@),
    {
        let kind = classify(line);
        match &kind {
            MapsLine::Executable(path) => {
                let at = self.bucket_at(link);
                let ghost before = self.buckets@;
                proof {
                    lemma_entry(keyed(before), at as int);
                }
                self.buckets[at].paths.insert(path.as_str());
                proof {
                    assert(keyed(self.buckets@) =~= keyed(before).update(
                        at as int,
                        (link@, before[at as int].paths@.insert(path@)),
                    ));
                    lemma_update(keyed(before), at as int, before[at as int].paths@.insert(path@));
                }
            },
            _ => {},
        }
        kind
    }
    /// Ends the scan. Each namespace is filed under its token: the one whose
    /// link target is that of the scanner itself under `Own`, every other
    /// under its link target.
    pub fn finish(self) -> (found: DiscoverySet)
        requires
            self.wf(),
        ensures
            found.wf(),
            found@ == spec_discovery(self@),
    {
        let Scan { own, buckets } = self;
        let ghost own_view = self@.own;
        let ghost links = keyed(buckets@);
        let mut groups: Vec<Group> = Vec::new();
        for bucket in it: buckets
            invariant
                it.seq() == self.buckets@,
                links == keyed(self.buckets@),
                own == self.own,
                own_view == self@.own,
                distinct_keys(links),
                forall|i: int| 0 <= i < self.buckets.len() ==> (#[trigger] self.buckets[i]).paths.wf(),
                groups.len() == it.index(),
                forall|i: int|
                    0 <= i < groups.len() ==> (#[trigger] groups[i]).token@ == spec_token_for(
                        own_view,
                        links[i].0,
                    ) && groups[i].paths@ == links[i].1 && groups[i].paths.wf(),
        {
            let ghost n = it.index() as int;
            assert(bucket == self.buckets[n]);
            let token = match &own {
                Some(link) => NamespaceToken::for_link(Some(link.as_str()), bucket.link.as_str()),
                None => NamespaceToken::for_link(None, bucket.link.as_str()),
            };
            groups.push(Group { token, paths: bucket.paths });
        }
        let found = DiscoverySet { groups };
        proof {
            let tokens = grouped(found.groups@);
            assert forall|i: int, j: int| 0 <= i < j < tokens.len() implies (#[trigger] tokens[i]).0
                != (#[trigger] tokens[j]).0 by {
                assert(links[i].0 != links[j].0);
            }
            let want = spec_discovery(self@);
            assert forall|t: TokenView| has_key(tokens, t) implies want.dom().contains(t)
                && to_map(tokens)[t] == want[t] by {
                let i = index_of(tokens, t);
                lemma_entry(tokens, i);
                lemma_entry(links, i);
            }
            assert forall|t: TokenView| want.dom().contains(t) implies has_key(tokens, t) by {
                let i = index_of(links, spec_link_of(own_view, t));
                lemma_entry(links, i);
                assert(tokens[i].0 == t);
            }
            assert(to_map(tokens) =~= want);
        }
        found
    }
}

/// The files of one namespace.
#[derive(Debug)]
pub struct Group {
    /// The namespace.
    pub token: NamespaceToken,
    /// The files that its processes have mapped executably.
    pub paths: PathSet,
}

spec fn grouped(groups: Seq<Group>) -> Seq<(TokenView, Set<Seq<char>>)> {
    Seq::new(groups.len(), |i: int| (groups[i].token@, groups[i].paths@))
}

/// The result of one scan: for each namespace in which a process had its
/// maps read, the files found there.
#[derive(Debug)]
pub struct DiscoverySet {
    groups: Vec<Group>,
}

impl View for DiscoverySet {
    type V = Discovery;

    closed spec fn view(&self) -> Discovery {
        to_map(grouped(self.groups@))
    }
}

impl DiscoverySet {
    /// No namespace is listed twice, and no file twice in a namespace.
    pub closed spec fn wf(&self) -> bool {
        &&& distinct_keys(grouped(self.groups@))
        &&& forall|i: int| 0 <= i < self.groups.len() ==> (#[trigger] self.groups[i]).paths.wf()
    }

    /// The namespaces with their files, each namespace once.
    pub fn groups(&self) -> (list: &Vec<Group>)
        requires
            self.wf(),
        ensures
            forall|i: int|
                0 <= i < list.len() ==> self@.dom().contains((#[trigger] list[i]).token@)
                    && self@[list[i].token@] == list[i].paths@ && list[i].paths.wf(),
            forall|t: TokenView|
                self@.dom().contains(t) ==> exists|i: int|
                    0 <= i < list.len() && (#[trigger] list[i]).token@ == t,
            forall|i: int, j: int|
                0 <= i < j < list.len() ==> (#[trigger] list[i]).token@ != (#[trigger] list[j]).token@,
    {
        proof {
            let tokens = grouped(self.groups@);
            assert forall|i: int| 0 <= i < self.groups.len() implies self@.dom().contains(
                (#[trigger] self.groups[i]).token@,
            ) && self@[self.groups[i].token@] == self.groups[i].paths@ by {
                lemma_entry(tokens, i);
            }
            assert forall|t: TokenView| self@.dom().contains(t) implies exists|i: int|
                0 <= i < self.groups.len() && (#[trigger] self.groups[i]).token@ == t by {
                let i = index_of(tokens, t);
                assert(tokens[i].0 == t);
                assert(self.groups[i].token@ == t);
            }
            assert forall|i: int, j: int| 0 <= i < j < self.groups.len() implies (
            #[trigger] self.groups[i]).token@ != (#[trigger] self.groups[j]).token@ by {
                assert(tokens[i].0 != tokens[j].0);
            }
        }
        &self.groups
    }

    /// The files found in the namespace `token`, if any process of it had its
    /// maps read.
    pub fn files_of(&self, token: &NamespaceToken) -> (files: Option<&PathSet>)
        requires
            self.wf(),
        ensures
            files is Some <==> self@.dom().contains(token@),
            files matches Some(set) ==> set@ == self@[token@] && set.wf(),
    {
        let mut i: usize = 0;
        while i < self.groups.len()
            invariant
                i <= self.groups.len(),
                self.wf(),
                forall|k: int| 0 <= k < i ==> (#[trigger] grouped(self.groups@)[k]).0 != token@,
            decreases self.groups.len() - i,
        {
            if self.groups[i].token.same(token) {
                proof {
                    lemma_entry(grouped(self.groups@), i as int);
                }
                return Some(&self.groups[i].paths);
            }
            i += 1;
        }
        None
    }
}

/// A line adds a file to a scan only if it shows an executable region of a
/// file with an absolute path, and then it adds that path to the namespace
/// of the process; a line that is cut short, not executable or without such
/// a path leaves the scan as it is.
pub proof fn lemma_only_executable_files(files: Files, link: Seq<char>, line: Seq<char>)
    ensures
        match spec_classify(line) {
            LineKind::Executable(path) => {
                &&& path.len() > 0
                &&& path[0] == '/'
                &&& spec_record(files, link, line).dom().contains(link)
                &&& spec_record(files, link, line)[link].contains(path)
            },
            _ => spec_record(files, link, line) == files,
        },
{
    lemma_named_path(line);
}

/// A file that two processes of one namespace have mapped is listed once for
/// that namespace: finding it again changes nothing.
pub proof fn lemma_found_twice(files: Files, link: Seq<char>, path: Seq<char>)
    ensures
        spec_insert(spec_insert(files, link, path), link, path) == spec_insert(files, link, path),
{
    let once = spec_insert(files, link, path);
    assert(once[link].insert(path) =~= once[link]);
    assert(spec_insert(once, link, path) =~= once);
}

/// Whatever the link target of the scanner's own namespace is, its files are
/// handed on under `Own` and under no other token, and every other namespace
/// under its link target.
pub proof fn lemma_own_namespace(scan: ScanView, own: Seq<char>)
    requires
        scan.own == Some(own),
    ensures
        !spec_discovery(scan).dom().contains(TokenView::Named(own)),
        scan.files.dom().contains(own) ==> spec_discovery(scan).dom().contains(TokenView::Own)
            && spec_discovery(scan)[TokenView::Own] == scan.files[own],
        forall|link: Seq<char>|
            link != own && #[trigger] scan.files.dom().contains(link) ==> spec_discovery(
                scan,
            ).dom().contains(TokenView::Named(link)) && spec_discovery(scan)[TokenView::Named(
                link,
            )] == scan.files[link],
{
}

} // verus!
