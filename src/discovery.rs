use vstd::prelude::*;

use crate::extension::{has_mp3_extension, is_mp3_file, EntryKind};

verus! {

/// Lexicographic order on text, comparing characters by code point.
pub open spec fn lex_le(a: Seq<char>, b: Seq<char>) -> bool
    decreases a.len(),
{
    if a.len() == 0 {
        true
    } else if b.len() == 0 {
        false
    } else if a[0] != b[0] {
        (a[0] as u32) < (b[0] as u32)
    } else {
        lex_le(a.drop_first(), b.drop_first())
    }
}

/// Each text comes no later than every text after it.
pub open spec fn sorted_lex(s: Seq<Seq<char>>) -> bool {
    forall|i: int, j: int| 0 <= i < j < s.len() ==> lex_le(#[trigger] s[i], #[trigger] s[j])
}

/// `s` holds the texts of `t`, each as often, in lexicographic order.
pub open spec fn sorted_form_of(s: Seq<Seq<char>>, t: Seq<Seq<char>>) -> bool {
    &&& s.to_multiset() == t.to_multiset()
    &&& sorted_lex(s)
}

pub open spec fn texts(v: Seq<String>) -> Seq<Seq<char>> {
    v.map_values(|s: String| s@)
}

/// Relies on `slice::sort` for `String`: it permutes the strings into ascending
/// order, and `String` compares lexicographically by code point.
#[verifier::external_body]
fn sort_texts(v: &mut Vec<String>)
    ensures
        sorted_form_of(texts(final(v)@), texts(old(v)@)),
{
    v.sort();
}

/// One object found in a directory: its full path and its kind.
#[derive(Debug)]
pub struct Entry {
    pub path: String,
    pub kind: EntryKind,
}

/// An entry that discovery keeps: a regular file with an `mp3` extension.
pub open spec fn qualifies(e: Entry) -> bool {
    e.kind == EntryKind::File && has_mp3_extension(e.path@)
}

/// The paths of the qualifying entries, in listing order.
pub open spec fn matches_of(entries: Seq<Entry>) -> Seq<Seq<char>>
    decreases entries.len(),
{
    if entries.len() == 0 {
        Seq::empty()
    } else {
        let rest = matches_of(entries.drop_last());
        if qualifies(entries.last()) {
            rest.push(entries.last().path@)
        } else {
            rest
        }
    }
}

/// The paths of the directories among the entries, in listing order.
pub open spec fn subdirs_of(entries: Seq<Entry>) -> Seq<Seq<char>>
    decreases entries.len(),
{
    if entries.len() == 0 {
        Seq::empty()
    } else {
        let rest = subdirs_of(entries.drop_last());
        if entries.last().kind == EntryKind::Dir {
            rest.push(entries.last().path@)
        } else {
            rest
        }
    }
}

/// How a root that is itself a regular file is treated.
#[derive(PartialEq, Eq, Structural, Clone, Copy, Debug)]
pub enum RootFilePolicy {
    /// Kept only when its extension is `mp3`, as for files inside directories.
    FilterByExtension,
    /// Kept whatever its extension.
    AcceptAny,
}

/// A failure of discovery that ends the run.
#[derive(Debug)]
pub enum DiscoveryError {
    /// The root path names neither a file nor a directory.
    NotFound(String),
    /// The root directory could not be listed.
    Io(String),
}

/// The abstract state of a discovery.
pub struct DiscoveryView {
    pub recursive: bool,
    /// Every directory queued for listing, in the order they are listed.
    pub pending: Seq<Seq<char>>,
    /// How many of `pending` have been listed (or skipped).
    pub listed: nat,
    /// The qualifying files found so far, in order.
    pub found: Seq<Seq<char>>,
}

/// Discovery of the qualifying files under a root path, as a state machine.
///
/// The caller reads the file system: it asks `next_dir` which directory to list,
/// and hands the listing back through `on_listing` (or reports through
/// `on_listing_failed` that it could not be read), until `next_dir` gives `None`.
/// Directories are listed breadth-first; the files and subdirectories of each
/// listing are taken in ascending order of path, so that the result does not
/// depend on the order in which the file system lists a directory.
pub struct Discovery {
    recursive: bool,
    pending: Vec<String>,
    listed: usize,
    found: Vec<String>,
}

impl View for Discovery {
    type V = DiscoveryView;

    closed spec fn view(&self) -> DiscoveryView {
        DiscoveryView {
            recursive: self.recursive,
            pending: texts(self.pending@),
            listed: self.listed as nat,
            found: texts(self.found@),
        }
    }
}

/// The state after a listing of `entries` is taken in: the directory counts as
/// listed, the qualifying files follow the earlier ones in ascending order, and in a
/// recursive discovery the subdirectories join the queue in ascending order.
pub open spec fn after_listing(before: DiscoveryView, after: DiscoveryView, entries: Seq<Entry>) -> bool {
    &&& after.recursive == before.recursive
    &&& after.listed == before.listed + 1
    &&& after.found.len() >= before.found.len()
    &&& after.found.take(before.found.len() as int) == before.found
    &&& sorted_form_of(after.found.skip(before.found.len() as int), matches_of(entries))
    &&& after.pending.len() >= before.pending.len()
    &&& after.pending.take(before.pending.len() as int) == before.pending
    &&& sorted_form_of(
        after.pending.skip(before.pending.len() as int),
        if before.recursive {
            subdirs_of(entries)
        } else {
            Seq::empty()
        },
    )
}

/// Whether a root that is a regular file is kept under a policy.
pub open spec fn root_file_kept(policy: RootFilePolicy, root: Seq<char>) -> bool {
    policy == RootFilePolicy::AcceptAny || has_mp3_extension(root)
}

impl Discovery {
    pub closed spec fn wf(&self) -> bool {
        self.listed <= self.pending@.len()
    }

    /// Whether every queued directory has been listed.
    pub open spec fn done_spec(&self) -> bool {
        self@.listed >= self@.pending.len()
    }

    /// Starts discovery at `root`, whose kind the caller read from the file system.
    pub fn start(root: String, kind: EntryKind, recursive: bool, policy: RootFilePolicy) -> (r:
        Result<Discovery, DiscoveryError>)
        ensures
            kind == EntryKind::Other <==> r is Err,
            match r {
                Err(DiscoveryError::NotFound(p)) => p@ == root@,
                Err(DiscoveryError::Io(_)) => false,
                Ok(d) => {
                    &&& d.wf()
                    &&& d@.recursive == recursive
                    &&& d@.listed == 0
                    &&& kind == EntryKind::Dir ==> d@.pending == seq![root@] && d@.found
                        == Seq::<Seq<char>>::empty()
                    &&& kind == EntryKind::File ==> d@.pending == Seq::<Seq<char>>::empty()
                        && d@.found == (if root_file_kept(policy, root@) {
                        seq![root@]
                    } else {
                        Seq::<Seq<char>>::empty()
                    })
                },
            },
    {
        match kind {
            EntryKind::Other => Err(DiscoveryError::NotFound(root)),
            EntryKind::Dir => {
                let mut pending: Vec<String> = Vec::new();
                pending.push(root);
                let d = Discovery { recursive, pending, listed: 0, found: Vec::new() };
                assert(d@.pending =~= seq![root@]);
                assert(d@.found =~= Seq::<Seq<char>>::empty());
                Ok(d)
            },
            EntryKind::File => {
                let keep = policy == RootFilePolicy::AcceptAny || is_mp3_file(root.as_str(), kind);
                let mut found: Vec<String> = Vec::new();
                if keep {
                    found.push(root);
                }
                let d = Discovery { recursive, pending: Vec::new(), listed: 0, found };
                assert(d@.pending =~= Seq::<Seq<char>>::empty());
                if keep {
                    assert(d@.found =~= seq![root@]);
                } else {
                    assert(d@.found =~= Seq::<Seq<char>>::empty());
                }
                Ok(d)
            },
        }
    }

    /// Whether every queued directory has been listed.
    pub fn is_done(&self) -> (r: bool)
        requires
            self.wf(),
        ensures
            r == self.done_spec(),
    {
        self.listed >= self.pending.len()
    }

    /// The directory to list next, if any is left.
    pub fn next_dir(&self) -> (r: Option<String>)
        requires
            self.wf(),
        ensures
            match r {
                Some(p) => !self.done_spec() && p@ == self@.pending[self@.listed as int],
                None => self.done_spec(),
            },
    {
        if self.listed < self.pending.len() {
            Some(self.pending[self.listed].clone())
        } else {
            None
        }
    }

    /// Takes in the listing of the directory that `next_dir` named: its qualifying
    /// files join the result in ascending order of path and, when the discovery is
    /// recursive, its subdirectories join the queue in ascending order of path.
    pub fn on_listing(&mut self, entries: &Vec<Entry>)
        requires
            old(self).wf(),
            !old(self).done_spec(),
        ensures
            final(self).wf(),
            after_listing(old(self)@, final(self)@, entries@),
    {
        assert(self@.listed == self.listed as nat);
        assert(texts(self.pending@).len() == self.pending@.len());
        assert(self.listed < self.pending.len());
        self.listed = self.listed + 1;
        let mut files: Vec<String> = Vec::new();
        let mut dirs: Vec<String> = Vec::new();
        let mut i: usize = 0;
        while i < entries.len()
            invariant
                i <= entries@.len(),
                texts(files@) == matches_of(entries@.take(i as int)),
                texts(dirs@) == subdirs_of(entries@.take(i as int)),
            decreases entries@.len() - i,
        {
            let e = &entries[i];
            proof {
                assert(entries@.take(i + 1).drop_last() =~= entries@.take(i as int));
                assert(entries@.take(i + 1).last() == entries@[i as int]);
            }
            let ghost files0 = files@;
            let ghost dirs0 = dirs@;
            if is_mp3_file(e.path.as_str(), e.kind) {
                files.push(e.path.clone());
                assert(texts(files@) =~= texts(files0).push(e.path@));
            }
            if e.kind == EntryKind::Dir {
                dirs.push(e.path.clone());
                assert(texts(dirs@) =~= texts(dirs0).push(e.path@));
            }
            i += 1;
        }
        assert(entries@.take(entries@.len() as int) =~= entries@);
        sort_texts(&mut files);
        sort_texts(&mut dirs);
        let ghost found0 = self.found@;
        let ghost pending0 = self.pending@;
        let ghost files1 = files@;
        let ghost dirs1 = dirs@;
        self.found.append(&mut files);
        if self.recursive {
            self.pending.append(&mut dirs);
            proof {
                lemma_texts_concat(pending0, dirs1);
                assert(self@.pending =~= texts(pending0) + texts(dirs1));
                assert(self@.pending.take(texts(pending0).len() as int) =~= texts(pending0));
                assert(self@.pending.skip(texts(pending0).len() as int) =~= texts(dirs1));
            }
        }
        proof {
            lemma_texts_concat(found0, files1);
            assert(self@.found.take(texts(found0).len() as int) =~= texts(found0));
            assert(self@.found.skip(texts(found0).len() as int) =~= texts(files1));
            if !self.recursive {
                assert(self@.pending.take(texts(pending0).len() as int) =~= texts(pending0));
                assert(self@.pending.skip(texts(pending0).len() as int) =~= Seq::<Seq<char>>::empty());
            }
        }
    }

    /// Records that the directory that `next_dir` named could not be listed. For the
    /// root directory that ends discovery with an error; a subdirectory is skipped.
    pub fn on_listing_failed(&mut self) -> (r: Result<(), DiscoveryError>)
        requires
            old(self).wf(),
            !old(self).done_spec(),
        ensures
            final(self).wf(),
            old(self)@.listed == 0 <==> r is Err,
            match r {
                Err(DiscoveryError::Io(p)) => p@ == old(self)@.pending[0] && final(self)@ == old(
                    self,
                )@,
                Err(DiscoveryError::NotFound(_)) => false,
                Ok(()) => final(self)@ == (DiscoveryView {
                    listed: old(self)@.listed + 1,
                    ..old(self)@
                }),
            },
    {
        assert(self@.listed == self.listed as nat);
        assert(texts(self.pending@).len() == self.pending@.len());
        assert(self.listed < self.pending.len());
        if self.listed == 0 {
            Err(DiscoveryError::Io(self.pending[0].clone()))
        } else {
            self.listed = self.listed + 1;
            Ok(())
        }
    }

    /// The qualifying files found, in order.
    pub fn into_files(self) -> (r: Vec<String>)
        ensures
            texts(r@) == self@.found,
    {
        self.found
    }
}


/// What a listing says of each entry: its path and its kind.
pub open spec fn entry_views(entries: Seq<Entry>) -> Seq<(Seq<char>, EntryKind)> {
    entries.map_values(|e: Entry| (e.path@, e.kind))
}

proof fn lemma_lex_antisymmetric(a: Seq<char>, b: Seq<char>)
    requires
        lex_le(a, b),
        lex_le(b, a),
    ensures
        a == b,
    decreases a.len(),
{
    if a.len() == 0 {
        assert(a =~= b);
    } else if a[0] == b[0] {
        assert(b.len() > 0);
        lemma_lex_antisymmetric(a.drop_first(), b.drop_first());
        assert(a.drop_first().len() == b.drop_first().len());
        assert(a.len() == b.len());
        assert forall|i: int| 0 <= i < a.len() implies a[i] == b[i] by {
            if i > 0 {
                assert(a[i] == a.drop_first()[i - 1]);
                assert(b[i] == b.drop_first()[i - 1]);
            }
        }
        assert(a =~= b);
    }
}

proof fn lemma_sorted_unique(s: Seq<Seq<char>>, t: Seq<Seq<char>>)
    requires
        s.to_multiset() == t.to_multiset(),
        sorted_lex(s),
        sorted_lex(t),
    ensures
        s == t,
    decreases s.len(),
{
    broadcast use vstd::seq_lib::group_to_multiset_ensures;

    vstd::seq_lib::to_multiset_len(s);
    vstd::seq_lib::to_multiset_len(t);
    if s.len() == 0 {
        assert(t.len() == 0);
        assert(s =~= t);
    } else {
        assert(t.to_multiset().count(s[0]) > 0);
        assert(t.contains(s[0]));
        let k = choose|k: int| 0 <= k < t.len() && t[k] == s[0];
        assert(s.to_multiset().count(t[0]) > 0);
        assert(s.contains(t[0]));
        let m = choose|m: int| 0 <= m < s.len() && s[m] == t[0];
        if k > 0 {
            assert(lex_le(t[0], t[k]));
        } else {
            assert(t[0] == s[0]);
        }
        if m > 0 {
            assert(lex_le(s[0], s[m]));
        } else {
            assert(t[0] == s[0]);
        }
        if k > 0 && m > 0 {
            lemma_lex_antisymmetric(s[0], t[0]);
        }
        assert(s[0] == t[0]);
        vstd::seq_lib::to_multiset_remove(s, 0);
        vstd::seq_lib::to_multiset_remove(t, 0);
        assert(s.remove(0) =~= s.drop_first());
        assert(t.remove(0) =~= t.drop_first());
        lemma_sorted_unique(s.drop_first(), t.drop_first());
        assert forall|i: int| 0 <= i < s.len() implies s[i] == t[i] by {
            if i > 0 {
                assert(s[i] == s.drop_first()[i - 1]);
                assert(t[i] == t.drop_first()[i - 1]);
            }
        }
        assert(s =~= t);
    }
}

proof fn lemma_matches_count(entries: Seq<Entry>, x: Seq<char>)
    ensures
        matches_of(entries).to_multiset().count(x) == if has_mp3_extension(x) {
            entry_views(entries).to_multiset().count((x, EntryKind::File))
        } else {
            0
        },
        subdirs_of(entries).to_multiset().count(x) == entry_views(entries).to_multiset().count(
            (x, EntryKind::Dir),
        ),
    decreases entries.len(),
{
    broadcast use vstd::seq_lib::group_to_multiset_ensures;

    if entries.len() == 0 {
        assert(entry_views(entries) =~= Seq::<(Seq<char>, EntryKind)>::empty());
    } else {
        let init = entries.drop_last();
        lemma_matches_count(init, x);
        assert(entry_views(entries) =~= entry_views(init).push(
            (entries.last().path@, entries.last().kind),
        ));
    }
}

proof fn lemma_texts_concat(a: Seq<String>, b: Seq<String>)
    ensures
        texts(a + b) == texts(a) + texts(b),
{
    assert(texts(a + b) =~= texts(a) + texts(b));
}

/// The result of taking in a listing depends only on which entries it holds, not on
/// the order in which the file system lists them: from one state, two listings
/// with the same entries in any order lead to the same state.
pub proof fn lemma_listing_order_irrelevant(
    before: DiscoveryView,
    after1: DiscoveryView,
    after2: DiscoveryView,
    entries1: Seq<Entry>,
    entries2: Seq<Entry>,
)
    requires
        entry_views(entries1).to_multiset() == entry_views(entries2).to_multiset(),
        after_listing(before, after1, entries1),
        after_listing(before, after2, entries2),
    ensures
        after1 == after2,
{
    assert(matches_of(entries1).to_multiset() =~= matches_of(entries2).to_multiset()) by {
        assert forall|x: Seq<char>|
            matches_of(entries1).to_multiset().count(x) == matches_of(
                entries2,
            ).to_multiset().count(x) by {
            lemma_matches_count(entries1, x);
            lemma_matches_count(entries2, x);
        }
    }
    assert(subdirs_of(entries1).to_multiset() =~= subdirs_of(entries2).to_multiset()) by {
        assert forall|x: Seq<char>|
            subdirs_of(entries1).to_multiset().count(x) == subdirs_of(
                entries2,
            ).to_multiset().count(x) by {
            lemma_matches_count(entries1, x);
            lemma_matches_count(entries2, x);
        }
    }
    let nf = before.found.len() as int;
    let np = before.pending.len() as int;
    lemma_sorted_unique(after1.found.skip(nf), after2.found.skip(nf));
    lemma_sorted_unique(after1.pending.skip(np), after2.pending.skip(np));
    assert(after1.found =~= after1.found.take(nf) + after1.found.skip(nf));
    assert(after2.found =~= after2.found.take(nf) + after2.found.skip(nf));
    assert(after1.pending =~= after1.pending.take(np) + after1.pending.skip(np));
    assert(after2.pending =~= after2.pending.take(np) + after2.pending.skip(np));
}

/// A non-recursive discovery started at a directory.
pub open spec fn flat_start(root: Seq<char>) -> DiscoveryView {
    DiscoveryView { recursive: false, pending: seq![root], listed: 0, found: Seq::empty() }
}

proof fn lemma_matches_len(entries: Seq<Entry>)
    ensures
        matches_of(entries).len() == entries.filter(|e: Entry| qualifies(e)).len(),
    decreases entries.len(),
{
    reveal(Seq::filter);
    if entries.len() > 0 {
        lemma_matches_len(entries.drop_last());
    }
}

/// `x` is the path of a qualifying entry of the listing.
pub open spec fn qualifying_entry_of(entries: Seq<Entry>, x: Seq<char>) -> bool {
    exists|i: int| 0 <= i < entries.len() && qualifies(#[trigger] entries[i]) && entries[i].path@ == x
}

proof fn lemma_matches_from_entries(entries: Seq<Entry>, x: Seq<char>)
    requires
        matches_of(entries).contains(x),
    ensures
        qualifying_entry_of(entries, x),
    decreases entries.len(),
{
    let init = entries.drop_last();
    if qualifies(entries.last()) && entries.last().path@ == x {
        assert(entries[entries.len() - 1] == entries.last());
    } else {
        if qualifies(entries.last()) {
            let k = choose|k: int| 0 <= k < matches_of(entries).len() && matches_of(entries)[k] == x;
            assert(matches_of(init).contains(x)) by {
                assert(matches_of(init)[k] == x);
            }
        }
        lemma_matches_from_entries(init, x);
        let i = choose|i: int| 0 <= i < init.len() && qualifies(#[trigger] init[i]) && init[i].path@ == x;
        assert(entries[i] == init[i]);
    }
}

/// A non-recursive discovery of a directory is done once that directory is listed,
/// and finds exactly as many files as the listing holds regular files with an
/// `mp3` extension, whatever else it holds.
pub proof fn lemma_flat_discovery_count(root: Seq<char>, after: DiscoveryView, entries: Seq<Entry>)
    requires
        after_listing(flat_start(root), after, entries),
    ensures
        after.listed >= after.pending.len(),
        after.found.len() == entries.filter(|e: Entry| qualifies(e)).len(),
{
    broadcast use vstd::seq_lib::group_to_multiset_ensures;

    vstd::seq_lib::to_multiset_len(after.pending.skip(1));
    vstd::seq_lib::to_multiset_len(Seq::<Seq<char>>::empty());
    assert(after.pending =~= seq![root]);
    assert(after.found.skip(0) =~= after.found);
    vstd::seq_lib::to_multiset_len(after.found);
    vstd::seq_lib::to_multiset_len(matches_of(entries));
    lemma_matches_len(entries);
}

/// A non-recursive discovery of a directory never looks below it: once the
/// directory is listed nothing is left to list, and every file found is a
/// qualifying entry of that listing.
pub proof fn lemma_flat_discovery_stays_at_top(root: Seq<char>, after: DiscoveryView, entries: Seq<Entry>)
    requires
        after_listing(flat_start(root), after, entries),
    ensures
        after.listed >= after.pending.len(),
        forall|k: int|
            0 <= k < after.found.len() ==> qualifying_entry_of(entries, #[trigger] after.found[k]),
{
    broadcast use vstd::seq_lib::group_to_multiset_ensures;

    vstd::seq_lib::to_multiset_len(after.pending.skip(1));
    vstd::seq_lib::to_multiset_len(Seq::<Seq<char>>::empty());
    assert(after.pending =~= seq![root]);
    assert(after.found.skip(0) =~= after.found);
    assert forall|k: int| 0 <= k < after.found.len() implies qualifying_entry_of(
        entries,
        #[trigger] after.found[k],
    ) by {
        assert(after.found.contains(after.found[k]));
        assert(matches_of(entries).to_multiset().count(after.found[k]) > 0);
        assert(matches_of(entries).contains(after.found[k]));
        lemma_matches_from_entries(entries, after.found[k]);
    }
}

/// In a recursive discovery every subdirectory in a listing is queued to be
/// listed in turn, so files at any depth are reached.
pub proof fn lemma_recursive_discovery_descends(
    before: DiscoveryView,
    after: DiscoveryView,
    entries: Seq<Entry>,
    i: int,
)
    requires
        before.recursive,
        after_listing(before, after, entries),
        0 <= i < entries.len(),
        entries[i].kind == EntryKind::Dir,
    ensures
        after.pending.skip(before.pending.len() as int).contains(entries[i].path@),
{
    broadcast use vstd::seq_lib::group_to_multiset_ensures;

    let x = entries[i].path@;
    assert(entry_views(entries)[i] == (x, EntryKind::Dir));
    assert(entry_views(entries).contains((x, EntryKind::Dir)));
    lemma_matches_count(entries, x);
    assert(after.pending.skip(before.pending.len() as int).to_multiset().count(x) > 0);
}

} // verus!
