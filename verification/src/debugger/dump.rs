//! What the debug dump of a test run says of the sources of a build: the
//! files of each compiler run by source id, and the artifacts of each
//! contract name.
use vstd::prelude::*;

use crate::text::str_eq;

verus! {

/// A source file of the build.
pub struct Source {
    pub path: String,
}

/// An artifact of a contract: the source id of the file it was compiled from.
#[derive(Clone, Copy, Debug, PartialEq, Eq, Structural)]
pub struct DebugNodeArtifact {
    pub file_id: u32,
}

/// The sources of a build, as the dump lists them.
pub struct Sources {
    /// for each compiler run (by its version), its files by source id
    pub sources_by_id: Vec<(String, Vec<(u32, Source)>)>,
    /// the artifacts of each contract name
    pub artifacts_by_name: Vec<(String, Vec<DebugNodeArtifact>)>,
}

/// Why no artifact of a contract name is known.
#[derive(Clone, Copy, Debug, PartialEq, Eq, Structural)]
pub enum ArtifactError {
    /// the dump lists no artifact of that name
    NotFound,
    /// the dump lists more than one artifact of that name
    Multiple,
}

/// The path of the first file with source id `id`, run by run and file by file.
pub open spec fn source_path(runs: Seq<(String, Vec<(u32, Source)>)>, id: u32) -> Option<Seq<char>>
    decreases runs.len(),
{
    if runs.len() == 0 {
        None
    } else {
        match source_path(runs.drop_last(), id) {
            Some(p) => Some(p),
            None => file_path(runs.last().1@, id),
        }
    }
}

/// The path of the first of the files `fs` with source id `id`.
pub open spec fn file_path(fs: Seq<(u32, Source)>, id: u32) -> Option<Seq<char>>
    decreases fs.len(),
{
    if fs.len() == 0 {
        None
    } else {
        match file_path(fs.drop_last(), id) {
            Some(p) => Some(p),
            None => if fs.last().0 == id {
                Some(fs.last().1.path@)
            } else {
                None
            },
        }
    }
}

/// The artifacts listed under the first entry named `name`.
pub open spec fn artifacts_named(entries: Seq<(String, Vec<DebugNodeArtifact>)>, name: Seq<char>) -> Option<
    Seq<DebugNodeArtifact>,
>
    decreases entries.len(),
{
    if entries.len() == 0 {
        None
    } else {
        match artifacts_named(entries.drop_last(), name) {
            Some(a) => Some(a),
            None => if entries.last().0@ == name {
                Some(entries.last().1@)
            } else {
                None
            },
        }
    }
}

fn first_file_path(fs: &Vec<(u32, Source)>, id: u32) -> (r: Option<String>)
    ensures
        match file_path(fs@, id) {
            Some(p) => r matches Some(s) && s@ == p,
            None => r is None,
        },
{
    let n = fs.len();
    let mut i: usize = 0;
    while i < n
        invariant
            n == fs@.len(),
            i <= n,
            file_path(fs@.take(i as int), id) is None,
        decreases n - i,
    {
        assert(fs@.take(i + 1).drop_last() =~= fs@.take(i as int));
        if fs[i].0 == id {
            proof {
                lemma_file_path_prefix(fs@, id, i as int + 1);
            }
            return Some(fs[i].1.path.clone());
        }
        i = i + 1;
    }
    assert(fs@.take(n as int) =~= fs@);
    None
}

proof fn lemma_file_path_prefix(fs: Seq<(u32, Source)>, id: u32, k: int)
    requires
        0 <= k <= fs.len(),
        file_path(fs.take(k), id) is Some,
    ensures
        file_path(fs, id) == file_path(fs.take(k), id),
    decreases fs.len() - k,
{
    if k < fs.len() {
        assert(fs.take(k + 1).drop_last() =~= fs.take(k));
        lemma_file_path_prefix(fs, id, k + 1);
    } else {
        assert(fs.take(k) =~= fs);
    }
}

proof fn lemma_source_path_prefix(runs: Seq<(String, Vec<(u32, Source)>)>, id: u32, k: int)
    requires
        0 <= k <= runs.len(),
        source_path(runs.take(k), id) is Some,
    ensures
        source_path(runs, id) == source_path(runs.take(k), id),
    decreases runs.len() - k,
{
    if k < runs.len() {
        assert(runs.take(k + 1).drop_last() =~= runs.take(k));
        lemma_source_path_prefix(runs, id, k + 1);
    } else {
        assert(runs.take(k) =~= runs);
    }
}

proof fn lemma_artifacts_prefix(entries: Seq<(String, Vec<DebugNodeArtifact>)>, name: Seq<char>, k: int)
    requires
        0 <= k <= entries.len(),
        artifacts_named(entries.take(k), name) is Some,
    ensures
        artifacts_named(entries, name) == artifacts_named(entries.take(k), name),
    decreases entries.len() - k,
{
    if k < entries.len() {
        assert(entries.take(k + 1).drop_last() =~= entries.take(k));
        lemma_artifacts_prefix(entries, name, k + 1);
    } else {
        assert(entries.take(k) =~= entries);
    }
}

impl Sources {
    /// The path of the file with source id `source_id`, if the dump lists one.
    pub fn find_source_path(&self, source_id: u32) -> (r: Option<String>)
        ensures
            match source_path(self.sources_by_id@, source_id) {
                Some(p) => r matches Some(s) && s@ == p,
                None => r is None,
            },
    {
        let runs = &self.sources_by_id;
        let n = runs.len();
        let mut i: usize = 0;
        while i < n
            invariant
                runs == &self.sources_by_id,
                n == runs@.len(),
                i <= n,
                source_path(runs@.take(i as int), source_id) is None,
            decreases n - i,
        {
            assert(runs@.take(i + 1).drop_last() =~= runs@.take(i as int));
            if let Some(p) = first_file_path(&runs[i].1, source_id) {
                proof {
                    lemma_source_path_prefix(runs@, source_id, i as int + 1);
                }
                return Some(p);
            }
            i = i + 1;
        }
        assert(runs@.take(n as int) =~= runs@);
        None
    }

    /// The source id of the file that the one artifact of the contract `name`
    /// was compiled from: an error where the dump lists no artifact of that
    /// name, or more than one.
    pub fn artifact_file_id(&self, name: &str) -> (r: Result<u32, ArtifactError>)
        requires
            artifacts_named(self.artifacts_by_name@, name@) matches Some(a) ==> a.len() > 0,
        ensures
            match artifacts_named(self.artifacts_by_name@, name@) {
                None => r == Err::<u32, ArtifactError>(ArtifactError::NotFound),
                Some(a) => if a.len() > 1 {
                    r == Err::<u32, ArtifactError>(ArtifactError::Multiple)
                } else {
                    r == Ok::<u32, ArtifactError>(a[0].file_id)
                },
            },
    {
        let entries = &self.artifacts_by_name;
        let n = entries.len();
        let mut i: usize = 0;
        while i < n
            invariant
                entries == &self.artifacts_by_name,
                artifacts_named(entries@, name@) matches Some(a) ==> a.len() > 0,
                n == entries@.len(),
                i <= n,
                artifacts_named(entries@.take(i as int), name@) is None,
            decreases n - i,
        {
            assert(entries@.take(i + 1).drop_last() =~= entries@.take(i as int));
            if str_eq(entries[i].0.as_str(), name) {
                proof {
                    lemma_artifacts_prefix(entries@, name@, i as int + 1);
                }
                let artifacts = &entries[i].1;
                if artifacts.len() > 1 {
                    return Err(ArtifactError::Multiple);
                }
                return Ok(artifacts[0].file_id);
            }
            i = i + 1;
        }
        assert(entries@.take(n as int) =~= entries@);
        Err(ArtifactError::NotFound)
    }
}

} // verus!
