//! Decisions of the compile pipeline and of the query command: which
//! directories are scanned, whether a session resumes, which files are
//! processed again, which stored records are stale, and which nodes a query
//! finds.
use vstd::prelude::*;
use crate::checkpoint::Checkpoint;
use crate::cli::{arg_views, dir_list, split_dir_list};
use crate::db::{FileMeta, KnowledgeNode};
use crate::serving::{keywords_match, select, strings_view, contains_all_keywords};
use crate::text::{normalize, normalized, owned, split_whitespace, str_eq, ws_words};

verus! {

/// The directories scanned when neither the command line nor the environment names any.
pub open spec fn default_target_dirs() -> Seq<Seq<char>> {
    seq![
        "../../Documents/InBox"@,
        "../../Documents/Archive/Devlog"@,
        "../../Documents/Archive/Media"@,
        "../../Documents/Archive/Specifications"@,
    ]
}

/// The directories to scan: those given on the command line, else the
/// comma-separated list of `TANUKI_TARGET_DIRS` (`env_dirs`), else the defaults.
pub fn resolve_target_dirs(src_dirs: Option<Vec<String>>, env_dirs: Option<&str>) -> (r: Vec<String>)
    ensures
        arg_views(r@) == match src_dirs {
            Some(d) => arg_views(d@),
            None => match env_dirs {
                Some(e) => dir_list(e@),
                None => default_target_dirs(),
            },
        },
{
    match src_dirs {
        Some(d) => d,
        None => match env_dirs {
            Some(e) => split_dir_list(e),
            None => {
                let mut v: Vec<String> = Vec::new();
                v.push(owned("../../Documents/InBox"));
                v.push(owned("../../Documents/Archive/Devlog"));
                v.push(owned("../../Documents/Archive/Media"));
                v.push(owned("../../Documents/Archive/Specifications"));
                assert(arg_views(v@) =~= default_target_dirs());
                v
            },
        },
    }
}

/// The session to continue with: a saved checkpoint whose hash equals the
/// current hash hands over its session id and notes; otherwise the fresh
/// session id and no notes.
pub fn resume_session(saved: Option<&Checkpoint>, current_hash: &str, fresh_session_id: String) -> (r: (
    String,
    String,
))
    ensures
        match saved {
            Some(c) => if c.ast_root_hash@ == current_hash@ {
                r.0 == c.session_id && r.1 == c.strategist_notes
            } else {
                r.0 == fresh_session_id && r.1@ == Seq::<char>::empty()
            },
            None => r.0 == fresh_session_id && r.1@ == Seq::<char>::empty(),
        },
{
    match saved {
        Some(c) => {
            if str_eq(c.ast_root_hash.as_str(), current_hash) {
                (c.session_id.clone(), c.strategist_notes.clone())
            } else {
                (fresh_session_id, String::new())
            }
        },
        None => (fresh_session_id, String::new()),
    }
}

/// Whether a file is parsed again: unless the stored modification time
/// equals the current one.
pub fn needs_processing(stored_mtime: Option<u64>, mtime: u64) -> (r: bool)
    ensures
        r == !(stored_mtime == Some(mtime)),
{
    match stored_mtime {
        Some(s) => s != mtime,
        None => true,
    }
}

/// Whether `p` is one of the processed paths.
pub open spec fn was_processed(processed: Seq<String>, p: Seq<char>) -> bool {
    exists|k: int| 0 <= k < processed.len() && (#[trigger] processed[k])@ == p
}

/// The stored paths that were not processed in this run, in stored order.
pub open spec fn stale(meta: Seq<FileMeta>, processed: Seq<String>) -> Seq<Seq<char>>
    decreases meta.len(),
{
    if meta.len() == 0 {
        Seq::empty()
    } else {
        stale(meta.drop_last(), processed) + if was_processed(processed, meta.last().path@) {
            Seq::empty()
        } else {
            seq![meta.last().path@]
        }
    }
}

fn is_processed(processed: &Vec<String>, p: &str) -> (r: bool)
    ensures
        r == was_processed(processed@, p@),
{
    let mut k: usize = 0;
    while k < processed.len()
        invariant
            k <= processed@.len(),
            forall|j: int| 0 <= j < k ==> (#[trigger] processed@[j])@ != p@,
        decreases processed@.len() - k,
    {
        if str_eq(processed[k].as_str(), p) {
            return true;
        }
        k = k + 1;
    }
    false
}

/// The stored file records whose files were not seen in this run: their
/// nodes and records are removed.
pub fn stale_paths(meta: &Vec<FileMeta>, processed: &Vec<String>) -> (r: Vec<String>)
    ensures
        arg_views(r@) == stale(meta@, processed@),
{
    let mut out: Vec<String> = Vec::new();
    let mut i: usize = 0;
    while i < meta.len()
        invariant
            i <= meta@.len(),
            arg_views(out@) == stale(meta@.take(i as int), processed@),
        decreases meta@.len() - i,
    {
        assert(meta@.take(i + 1).drop_last() =~= meta@.take(i as int));
        if !is_processed(processed, meta[i].path.as_str()) {
            out.push(meta[i].path.clone());
        }
        i = i + 1;
        assert(arg_views(out@) =~= stale(meta@.take(i as int), processed@));
    }
    assert(meta@.take(i as int) =~= meta@);
    out
}

/// What happens after the documents were read.
pub enum ReducePhase {
    /// No document changed: nothing to summarize.
    UpToDate,
    /// Documents changed, but the summary phase is switched off.
    Skipped,
    /// Documents changed: summarize.
    Run,
}

/// Whether the summary phase runs after the documents were read.
pub fn reduce_phase(any_changed: bool, no_reduce: bool) -> (r: ReducePhase)
    ensures
        r == (if !any_changed {
            ReducePhase::UpToDate
        } else if no_reduce {
            ReducePhase::Skipped
        } else {
            ReducePhase::Run
        }),
{
    if !any_changed {
        ReducePhase::UpToDate
    } else if no_reduce {
        ReducePhase::Skipped
    } else {
        ReducePhase::Run
    }
}

/// The keywords of the query command: the whitespace-separated words of the
/// lowercased, NFKC-normalized query.
pub open spec fn query_words(q: Seq<char>) -> Seq<Seq<char>> {
    ws_words(normalized(q))
}

/// The nodes whose normalized title or content contains every query word, in
/// stored order.
pub fn query_matches(nodes: &Vec<KnowledgeNode>, query_string: &str) -> (r: Vec<KnowledgeNode>)
    ensures
        r@ == select(nodes@, |n: KnowledgeNode| keywords_match(n, query_words(query_string@))),
{
    let q = normalize(query_string);
    let keywords = split_whitespace(q.as_str());
    assert(strings_view(keywords@) =~= query_words(query_string@));
    let ghost kws = strings_view(keywords@);
    let ghost p = |n: KnowledgeNode| keywords_match(n, query_words(query_string@));
    let mut out: Vec<KnowledgeNode> = Vec::new();
    let mut i: usize = 0;
    while i < nodes.len()
        invariant
            i <= nodes@.len(),
            kws == strings_view(keywords@),
            kws == query_words(query_string@),
            p == (|n: KnowledgeNode| keywords_match(n, query_words(query_string@))),
            out@ == select(nodes@.take(i as int), p),
        decreases nodes@.len() - i,
    {
        assert(nodes@.take(i + 1).drop_last() =~= nodes@.take(i as int));
        let n = &nodes[i];
        let t = normalize(n.title.as_str());
        let c = normalize(n.content.as_str());
        if contains_all_keywords(t.as_str(), c.as_str(), &keywords) {
            out.push(n.clone());
        }
        i = i + 1;
        assert(out@ =~= select(nodes@.take(i as int), p));
    }
    assert(nodes@.take(i as int) =~= nodes@);
    out
}

} // verus!
