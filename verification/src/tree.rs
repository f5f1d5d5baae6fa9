//! Which files the dependency graph of a diff is built from.

use vstd::prelude::*;
use vstd::utf8::{decode_utf8, valid_utf8};

use crate::analyze::AnalyzeError;
use crate::source::{
    answers_source, ends_with_registered, is_portable, is_source_path, law_directory_is_irrelevant,
    law_source_name, SourceFilter,
};
use crate::summary::{lemma_picked_at, marked, picked};
use crate::text::{lines, lines_of, views};

verus! {

/// What a diff compares.
#[derive(Clone, Debug)]
pub enum DiffScope {
    /// The working tree with the index.
    Working,
    /// The index with the last commit.
    Staged,
    /// A commit with its parent.
    Commit { sha: String },
    /// Two revisions.
    Range { from: String, to: String },
    /// The working tree with a revision.
    RefToWorking { refspec: String },
}

/// Where the files that the graph is built from are found.
#[derive(Clone, Debug)]
pub enum GraphSource {
    /// In the tree of a revision.
    Revision(String),
    /// In the index.
    Index,
    /// In the working tree.
    WorkingTree,
}

/// Picks the tree that the diff leads to.
pub fn graph_source_for_scope(scope: &DiffScope) -> (r: GraphSource)
    ensures
        match *scope {
            DiffScope::Commit { sha } => r == GraphSource::Revision(sha),
            DiffScope::Range { from: _, to } => r == GraphSource::Revision(to),
            DiffScope::Staged => r == GraphSource::Index,
            DiffScope::Working => r == GraphSource::WorkingTree,
            DiffScope::RefToWorking { refspec: _ } => r == GraphSource::WorkingTree,
        },
{
    match scope {
        DiffScope::Commit { sha } => GraphSource::Revision(sha.clone()),
        DiffScope::Range { from: _, to } => GraphSource::Revision(to.clone()),
        DiffScope::Staged => GraphSource::Index,
        DiffScope::Working => GraphSource::WorkingTree,
        DiffScope::RefToWorking { refspec: _ } => GraphSource::WorkingTree,
    }
}

/// What an entry of a tree is.
#[derive(Clone, Copy, Debug, PartialEq, Eq, Structural)]
pub enum EntryKind {
    Tree,
    Blob,
    Other,
}

/// What to do with an entry of a tree.
#[derive(Clone, Debug)]
pub enum Visit {
    /// Go on with the entries of the tree at this path.
    Descend(String),
    /// Write the blob to this path.
    Write(String),
    /// Nothing.
    Skip,
}

/// The path of an entry of the tree at `prefix`; the root is at the empty path.
pub open spec fn entry_path(prefix: Seq<char>, name: Seq<char>) -> Seq<char> {
    if prefix.len() == 0 {
        name
    } else {
        prefix + seq!['/'] + name
    }
}

/// Whether `r` is what to do with an entry of the tree at `prefix`.
pub open spec fn is_visit(
    prefix: Seq<char>,
    name: Seq<char>,
    kind: EntryKind,
    r: Visit,
) -> bool {
    let path = entry_path(prefix, name);
    match kind {
        EntryKind::Tree => r matches Visit::Descend(p) && p@ == path,
        EntryKind::Blob => {
            &&& answers_source(path, !(r is Skip))
            &&& !(r is Skip) ==> (r matches Visit::Write(p) && p@ == path)
        },
        EntryKind::Other => r is Skip,
    }
}

/// Decides on an entry of the tree at `prefix`. Its name is `None` where it is
/// not valid UTF-8.
pub fn visit_entry(
    prefix: &str,
    name: Option<&str>,
    kind: EntryKind,
    filter: &SourceFilter,
) -> (r: Result<Visit, AnalyzeError>)
    ensures
        name is None ==> (r matches Err(AnalyzeError::Git(reason)) && reason@
            == "tree entry is not valid UTF-8"@),
        name matches Some(name) ==> (r matches Ok(visit) && is_visit(
            prefix@,
            name@,
            kind,
            visit,
        )),
{
    let name = match name {
        Some(name) => name,
        None => {
            return Err(AnalyzeError::Git("tree entry is not valid UTF-8".to_string()));
        },
    };
    let mut path = prefix.to_string();
    if prefix.unicode_len() > 0 {
        path.push('/');
    }
    path.append(name);
    assert(path@ =~= entry_path(prefix@, name@));
    match kind {
        EntryKind::Tree => Ok(Visit::Descend(path)),
        EntryKind::Blob => if filter.accepts(path.as_str()) {
            Ok(Visit::Write(path))
        } else {
            Ok(Visit::Skip)
        },
        EntryKind::Other => Ok(Visit::Skip),
    }
}

/// `str::from_utf8` of std: the string that the bytes encode, where they are
/// valid UTF-8.
#[verifier::external_body]
fn utf8_text(bytes: &Vec<u8>) -> (r: Option<String>)
    ensures
        r is Some <==> valid_utf8(bytes@),
        r matches Some(s) ==> s@ == decode_utf8(bytes@),
{
    std::str::from_utf8(bytes).ok().map(|s| s.to_string())
}

/// The path of an entry of the index, where the entry holds entities and its
/// path is valid UTF-8.
pub fn index_entry(path: &Vec<u8>, filter: &SourceFilter) -> (r: Option<String>)
    ensures
        !valid_utf8(path@) ==> r is None,
        valid_utf8(path@) ==> answers_source(decode_utf8(path@), r is Some),
        r matches Some(p) ==> p@ == decode_utf8(path@),
{
    match utf8_text(path) {
        Some(text) => if filter.accepts(text.as_str()) {
            Some(text)
        } else {
            None
        },
        None => None,
    }
}

/// The text that bytes encode, where what is not valid UTF-8 is replaced: what
/// `String::from_utf8_lossy` of std gives.
pub uninterp spec fn lossy_text(bytes: Seq<u8>) -> Seq<char>;

/// `String::from_utf8_lossy` of std: a function of the bytes, and where they are
/// valid UTF-8 the string that they encode.
#[verifier::external_body]
fn from_utf8_lossy(bytes: &Vec<u8>) -> (r: String)
    ensures
        r@ == lossy_text(bytes@),
        valid_utf8(bytes@) ==> r@ == decode_utf8(bytes@),
{
    String::from_utf8_lossy(bytes).into_owned()
}

/// Whether `r` is what `is_noise` answers for `path`.
pub open spec fn answers_noise<N: Fn(&String) -> bool>(
    is_noise: N,
    path: Seq<char>,
    r: bool,
) -> bool {
    exists|s: String| s@ == path && #[trigger] call_ensures(is_noise, (&s,), r)
}

/// Whether `keep` marks the paths to list: those that are not noise and hold
/// entities.
pub open spec fn marks_listed<N: Fn(&String) -> bool>(
    is_noise: N,
    paths: Seq<Seq<char>>,
    keep: Seq<bool>,
) -> bool {
    &&& keep.len() == paths.len()
    &&& forall|i: int|
        0 <= i < keep.len() ==> is_listed(is_noise, paths[i], #[trigger] keep[i])
}

/// Whether `keep` says of one path whether to list it.
pub open spec fn is_listed<N: Fn(&String) -> bool>(
    is_noise: N,
    path: Seq<char>,
    keep: bool,
) -> bool {
    ||| answers_noise(is_noise, path, true) && !keep
    ||| answers_noise(is_noise, path, false) && answers_source(path, keep)
}

/// The paths of a listing, one to a line, that are not noise and hold entities.
pub fn select_source_files<N: Fn(&String) -> bool>(listing: &str, is_noise: &N) -> (r: Vec<String>)
    requires
        forall|path: &String| #[trigger] call_requires(*is_noise, (path,)),
    ensures
        exists|keep: Seq<bool>| #[trigger]
            marks_listed(*is_noise, lines_of(listing@), keep) && views(r@) == picked(
                lines_of(listing@),
                keep,
            ),
{
    let filter = SourceFilter::new();
    let all = lines(listing);
    let ghost paths = lines_of(listing@);
    let ghost mut keep: Seq<bool> = Seq::empty();
    let n: usize = all.len();
    let mut r: Vec<String> = Vec::new();
    let mut i: usize = 0;
    assert(views(r@) =~= Seq::empty());
    while i < n
        invariant
            i <= n == all@.len(),
            views(all@) == paths,
            forall|path: &String| #[trigger] call_requires(*is_noise, (path,)),
            marks_listed(*is_noise, paths.take(i as int), keep),
            views(r@) == picked(paths.take(i as int), keep),
        decreases n - i,
    {
        let ghost before = views(r@);
        let noise = is_noise(&all[i]);
        assert(paths[i as int] == all@[i as int]@);
        let wanted = !noise && filter.accepts(all[i].as_str());
        proof {
            let taken = paths.take(i as int);
            let next = paths.take(i + 1);
            assert(next.drop_last() =~= taken);
            let old_keep = keep;
            keep = keep.push(wanted);
            assert(keep.drop_last() =~= old_keep);
            assert(is_listed(*is_noise, paths[i as int], wanted));
            assert forall|k: int| 0 <= k < keep.len() implies is_listed(
                *is_noise,
                next[k],
                #[trigger] keep[k],
            ) by {
                if k < i {
                    assert(old_keep[k] == keep[k]);
                    assert(taken[k] == next[k]);
                }
            }
        }
        if wanted {
            r.push(all[i].clone());
            assert(views(r@) =~= before.push(paths[i as int]));
        }
        i += 1;
    }
    assert(paths.take(n as int) =~= paths);
    r
}

/// The outcome of `git ls-files`: why it did not run, or whether it succeeded
/// and what it printed.
pub type Listing = Result<(bool, Vec<u8>), String>;

/// Lists the tracked source files.
pub fn list_source_files<N: Fn(&String) -> bool>(listing: &Listing, is_noise: &N) -> (r: Result<
    Vec<String>,
    AnalyzeError,
>)
    requires
        forall|path: &String| #[trigger] call_requires(*is_noise, (path,)),
    ensures
        match *listing {
            Err(reason) => r matches Err(AnalyzeError::Git(e)) && e@
                == "failed to run git ls-files: "@ + reason@,
            Ok((succeeded, stdout)) => if succeeded {
                r matches Ok(files) && (valid_utf8(stdout@) ==> lossy_text(stdout@) == decode_utf8(
                    stdout@,
                )) && exists|keep: Seq<bool>| #[trigger]
                    marks_listed(*is_noise, lines_of(lossy_text(stdout@)), keep) && views(files@)
                        == picked(lines_of(lossy_text(stdout@)), keep)
            } else {
                r matches Err(AnalyzeError::Git(e)) && e@ == "git ls-files failed"@
            },
        },
{
    match listing {
        Err(reason) => {
            let mut message = "failed to run git ls-files: ".to_string();
            message.append(reason.as_str());
            Err(AnalyzeError::Git(message))
        },
        Ok((succeeded, stdout)) => if *succeeded {
            let text = from_utf8_lossy(stdout);
            Ok(select_source_files(text.as_str(), is_noise))
        } else {
            Err(AnalyzeError::Git("git ls-files failed".to_string()))
        },
    }
}

/// Only where a diff ends decides the tree: a range has that of the commit it
/// ends at, a staged diff the index, and a diff of the working tree that tree.
pub proof fn law_scope_end_decides(scope: DiffScope, r: GraphSource, end: String, commit: GraphSource)
    requires
        call_ensures(graph_source_for_scope, (&scope,), r),
        call_ensures(graph_source_for_scope, (&(DiffScope::Commit { sha: end }),), commit),
    ensures
        commit == GraphSource::Revision(end),
        scope is Range && scope->to == end ==> r == commit,
        scope is Staged ==> r is Index,
        scope is Working || scope is RefToWorking ==> r is WorkingTree,
{
}

/// Every named entry is decided on. A tree is descended whatever it is called, a
/// blob is written where its name says that it is a source file, wherever it
/// stands, and all else is skipped. The path is the name behind the prefix and a
/// slash, or the name alone at the root.
pub proof fn law_visit_entry(
    prefix: &str,
    name: &str,
    kind: EntryKind,
    filter: SourceFilter,
    path: Seq<char>,
    r: Result<Visit, AnalyzeError>,
)
    requires
        call_ensures(visit_entry, (prefix, Some(name), kind, &filter), r),
        path == if prefix@.len() == 0 {
            name@
        } else {
            prefix@ + seq!['/'] + name@
        },
    ensures
        r is Ok,
        kind == EntryKind::Tree ==> r->Ok_0 is Descend && r->Ok_0->Descend_0@ == path,
        kind == EntryKind::Other ==> r->Ok_0 is Skip,
        kind == EntryKind::Blob ==> r->Ok_0 is Skip || (r->Ok_0 is Write && r->Ok_0->Write_0@
            == path),
        kind == EntryKind::Blob ==> answers_source(path, r->Ok_0 is Write),
        (kind == EntryKind::Blob && is_plain_name(name@) && is_portable(path)) ==> (
        r->Ok_0 is Write <==> exists|stem: Seq<char>, ext: Seq<char>, known: Seq<char>|
            ends_with_registered(name@, stem, ext, known)),
{
    if is_plain_name(name@) {
        law_directory_is_irrelevant(prefix@, name@);
        law_source_name(name@);
    }
}

/// Whether `name` is one component of a path, and not a special one.
pub open spec fn is_plain_name(name: Seq<char>) -> bool {
    &&& name.len() > 0
    &&& !name.contains('/')
    &&& name != seq!['.']
    &&& name != seq!['.', '.']
}

/// An entry of the index is kept, under its own path, where that is text and its
/// name says that it is a source file.
pub proof fn law_index_entry(
    path: Vec<u8>,
    filter: SourceFilter,
    dir: Seq<char>,
    name: Seq<char>,
    r: Option<String>,
)
    requires
        call_ensures(index_entry, (&path, &filter), r),
    ensures
        !valid_utf8(path@) ==> r is None,
        r is Some ==> r->0@ == decode_utf8(path@),
        valid_utf8(path@) ==> answers_source(decode_utf8(path@), r is Some),
        (valid_utf8(path@) && is_plain_name(name) && is_portable(decode_utf8(path@)) && (
        decode_utf8(path@) == name || decode_utf8(path@) == dir + seq!['/'] + name)) ==> (
        r is Some <==> exists|stem: Seq<char>, ext: Seq<char>, known: Seq<char>|
            ends_with_registered(name, stem, ext, known)),
{
    if is_plain_name(name) {
        law_directory_is_irrelevant(dir, name);
        law_source_name(name);
    }
}

/// Whether `files` are, in their order and each once, those of `paths` that are
/// not noise and are taken for source files; `at` holds their positions.
pub open spec fn are_listed_at<N: Fn(&String) -> bool>(
    is_noise: N,
    paths: Seq<Seq<char>>,
    files: Seq<String>,
    at: Seq<int>,
) -> bool {
    &&& files.len() == at.len()
    &&& forall|a: int, b: int| 0 <= a < b < at.len() ==> #[trigger] at[a] < #[trigger] at[b]
    &&& forall|k: int|
        0 <= k < at.len() ==> {
            let path = paths[#[trigger] at[k]];
            &&& 0 <= at[k] < paths.len()
            &&& files[k]@ == path
            &&& exists|s: String| s@ == path && #[trigger] call_ensures(is_noise, (&s,), false)
            &&& answers_source(path, true)
            &&& is_portable(path) ==> is_source_path(path)
        }
    &&& forall|i: int|
        0 <= i < paths.len() && !#[trigger] at.contains(i) ==> {
            ||| exists|s: String| s@ == paths[i] && #[trigger] call_ensures(is_noise, (&s,), true)
            ||| answers_source(paths[i], false) && (is_portable(paths[i]) ==> !is_source_path(
                paths[i],
            ))
        }
}

proof fn lemma_listed_at<N: Fn(&String) -> bool>(
    is_noise: N,
    paths: Seq<Seq<char>>,
    files: Seq<String>,
    keep: Seq<bool>,
) -> (at: Seq<int>)
    requires
        marks_listed(is_noise, paths, keep),
        views(files) == picked(paths, keep),
    ensures
        are_listed_at(is_noise, paths, files, at),
{
    let at = marked(keep);
    lemma_picked_at(paths, keep);
    assert(views(files).len() == files.len());
    assert forall|k: int| 0 <= k < at.len() implies {
        let path = paths[#[trigger] at[k]];
        &&& 0 <= at[k] < paths.len()
        &&& files[k]@ == path
        &&& exists|s: String| s@ == path && #[trigger] call_ensures(is_noise, (&s,), false)
        &&& answers_source(path, true)
        &&& is_portable(path) ==> is_source_path(path)
    } by {
        assert(keep[at[k]]);
        assert(views(files)[k] == files[k]@);
        assert(picked(paths, keep)[k] == paths[at[k]]);
        assert(is_listed(is_noise, paths[at[k]], true));
    }
    assert forall|i: int| 0 <= i < paths.len() && !#[trigger] at.contains(i) implies {
        ||| exists|s: String| s@ == paths[i] && #[trigger] call_ensures(is_noise, (&s,), true)
        ||| answers_source(paths[i], false) && (is_portable(paths[i]) ==> !is_source_path(
            paths[i],
        ))
    } by {
        if keep[i] {
            assert((|i: int| keep[i])(i));
        }
        assert(is_listed(is_noise, paths[i], false)) by {
            assert(is_listed(is_noise, paths[i], keep[i]));
        }
    }
    at
}

/// Selecting source files keeps exactly the lines that are not noise and are
/// taken for source files, in their order.
pub proof fn law_selected_files<N: Fn(&String) -> bool>(
    listing: &str,
    is_noise: N,
    r: Vec<String>,
) -> (at: Seq<int>)
    requires
        call_ensures(select_source_files::<N>, (listing, &is_noise), r),
    ensures
        are_listed_at(is_noise, lines_of(listing@), r@, at),
{
    let keep = choose|keep: Seq<bool>| #[trigger]
        marks_listed(is_noise, lines_of(listing@), keep) && views(r@) == picked(
            lines_of(listing@),
            keep,
        );
    lemma_listed_at(is_noise, lines_of(listing@), r@, keep)
}

/// A listing that succeeded gives the source files among its lines. One that did
/// not run, or failed whatever it printed, is an error.
pub proof fn law_listed_files<N: Fn(&String) -> bool>(
    listing: Listing,
    is_noise: N,
    r: Result<Vec<String>, AnalyzeError>,
) -> (at: Seq<int>)
    requires
        call_ensures(list_source_files::<N>, (&listing, &is_noise), r),
    ensures
        r is Ok <==> listing is Ok && listing->Ok_0.0,
        r is Err ==> r->Err_0 is Git,
        listing is Err ==> r->Err_0->Git_0@ == "failed to run git ls-files: "@ + listing->Err_0@,
        listing is Ok && !listing->Ok_0.0 ==> r->Err_0->Git_0@ == "git ls-files failed"@,
        r is Ok && valid_utf8(listing->Ok_0.1@) ==> are_listed_at(
            is_noise,
            lines_of(decode_utf8(listing->Ok_0.1@)),
            r->Ok_0@,
            at,
        ),
{
    if r is Ok && valid_utf8(listing->Ok_0.1@) {
        let paths = lines_of(lossy_text(listing->Ok_0.1@));
        let keep = choose|keep: Seq<bool>| #[trigger]
            marks_listed(is_noise, paths, keep) && views(r->Ok_0@) == picked(paths, keep);
        lemma_listed_at(is_noise, paths, r->Ok_0@, keep)
    } else {
        Seq::empty()
    }
}

/// An entry without a readable name is an error, whatever it is and wherever it
/// stands.
pub proof fn law_nameless_entry(
    prefix: &str,
    kind: EntryKind,
    filter: SourceFilter,
    r: Result<Visit, AnalyzeError>,
)
    requires
        call_ensures(visit_entry, (prefix, None, kind, &filter), r),
    ensures
        r is Err,
        r->Err_0 is Git,
        r->Err_0->Git_0@ == "tree entry is not valid UTF-8"@,
{
}

} // verus!
