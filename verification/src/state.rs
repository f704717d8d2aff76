//! What the server holds open between calls, which workbook a caller means, and
//! where its file is.
//!
//! What is on disk and what the corpus lists is looked up by the caller of this
//! module; what follows from it is decided here.

use crate::context;
use crate::text;
use crate::text::{chars_of, debug_str, push_decimal, same_chars, same_text};
use crate::workbook::Workbook;
use vstd::prelude::*;

verus! {

/// A workbook as the corpus lists it.
#[derive(Debug, PartialEq, Eq)]
pub struct CorpusEntry {
    /// The content hash that names it.
    pub hash: String,
    /// Where it was indexed from.
    pub path: String,
    /// The last part of its path, where it has one.
    pub file_name: Option<String>,
    pub sheets: u64,
    pub cells: u64,
    pub nodes: u64,
    pub edges: u64,
}

/// `Path::file_name`: the last part of a path, where it has one that names a file.
/// Where a path is cut into parts differs from one platform to another, so nothing
/// is said of which part it is but that it stands in the path.
#[verifier::external_body]
fn file_name(path: &str) -> (r: Option<String>)
    ensures
        r matches Some(n) ==> context::occurs_in(n@, path@),
{
    std::path::Path::new(path).file_name().and_then(|n| n.to_str()).map(str::to_string)
}

impl CorpusEntry {
    /// The entry of a workbook that was indexed from a path.
    pub fn of(hash: String, path: String, sheets: u64, cells: u64, nodes: u64, edges: u64) -> (r:
        CorpusEntry)
        ensures
            r.hash == hash,
            r.path == path,
            r.sheets == sheets,
            r.cells == cells,
            r.nodes == nodes,
            r.edges == edges,
            r.file_name matches Some(n) ==> context::occurs_in(n@, path@),
    {
        let name: Option<String> = file_name(path.as_str());
        CorpusEntry { hash, path, file_name: name, sheets, cells, nodes, edges }
    }
}

/// A workbook answers to a name: the beginning of its hash, its path or its file
/// name.
pub open spec fn answers_to(e: CorpusEntry, want: Seq<char>) -> bool {
    want.is_prefix_of(e.hash@) || e.path@ == want || (e.file_name matches Some(n) && n@ == want)
}

/// The workbooks that answer to a name.
pub open spec fn answering(entries: Seq<CorpusEntry>, want: Seq<char>) -> Seq<CorpusEntry> {
    entries.filter(|e: CorpusEntry| answers_to(e, want))
}

/// The workbook that a caller means, or why that is not settled.
///
/// A corpus of one workbook needs no name; a corpus of many will not guess,
/// because answering a question about the wrong workbook is worse than asking
/// which.
pub open spec fn meant(entries: Seq<CorpusEntry>, wanted: Option<Seq<char>>) -> Result<
    CorpusEntry,
    Seq<char>,
> {
    if entries.len() == 0 {
        Err("the corpus is empty — index a workbook first"@)
    } else {
        match wanted {
            None => if entries.len() == 1 {
                Ok(entries[0])
            } else {
                Err(
                    "this corpus holds "@ + text::decimal(entries.len())
                        + " workbooks, so `workbook` is not optional. Call `workbooks` to see them."@,
                )
            },
            Some(want) => {
                let matches = answering(entries, want);
                if matches.len() == 1 {
                    Ok(matches[0])
                } else if matches.len() == 0 {
                    Err("no workbook in this corpus matches "@ + text::debug_text(want))
                } else {
                    Err(
                        text::debug_text(want) + " matches "@ + text::decimal(matches.len())
                            + " workbooks; be more specific"@,
                    )
                }
            },
        }
    }
}

fn begins_with(s: &str, start: &str) -> (r: bool)
    ensures
        r == start@.is_prefix_of(s@),
{
    let whole: Vec<char> = chars_of(s);
    let part: Vec<char> = chars_of(start);
    let n: usize = part.len();
    if n > whole.len() {
        return false;
    }
    same_chars(&whole.as_slice()[0..n], part.as_slice())
}

fn answers(e: &CorpusEntry, want: &str) -> (r: bool)
    ensures
        r == answers_to(*e, want@),
{
    begins_with(e.hash.as_str(), want) || same_text(e.path.as_str(), want) || match &e.file_name {
        Some(n) => same_text(n.as_str(), want),
        None => false,
    }
}

/// Resolve a workbook the caller named, or the only one there is, to its hash
/// and its path.
pub fn resolve(entries: &Vec<CorpusEntry>, wanted: Option<&str>) -> (r: Result<
    (String, String),
    String,
>)
    ensures
        match (
            r,
            meant(
                entries@,
                match wanted {
                    Some(w) => Some(w@),
                    None => None,
                },
            ),
        ) {
            (Ok(found), Ok(e)) => found.0@ == e.hash@ && found.1@ == e.path@,
            (Err(message), Err(m)) => message@ == m,
            _ => false,
        },
{
    let count: usize = entries.len();
    if count == 0 {
        return Err("the corpus is empty — index a workbook first".to_owned());
    }
    let want: &str = match wanted {
        Some(want) => want,
        None => {
            if count == 1 {
                return Ok((entries[0].hash.clone(), entries[0].path.clone()));
            }
            let mut message: String = "this corpus holds ".to_owned();
            push_decimal(&mut message, count as u64);
            message.push_str(
                " workbooks, so `workbook` is not optional. Call `workbooks` to see them.",
            );
            return Err(message);
        },
    };
    let ghost keep = |e: CorpusEntry| answers_to(e, want@);
    let mut found: Vec<usize> = Vec::new();
    let mut i: usize = 0;
    proof {
        reveal(Seq::filter);
        assert(entries@.take(0).filter(keep) =~= Seq::empty());
    }
    while i < count
        invariant
            count == entries@.len(),
            keep == (|e: CorpusEntry| answers_to(e, want@)),
            i <= count,
            found@.len() == entries@.take(i as int).filter(keep).len(),
            forall|k: int|
                0 <= k < found@.len() ==> (#[trigger] found@[k]) < count && entries@[found@[k] as int]
                    == entries@.take(i as int).filter(keep)[k],
        decreases count - i,
    {
        proof {
            reveal(Seq::filter);
            assert(entries@.take(i + 1).drop_last() =~= entries@.take(i as int));
            assert(entries@.take(i + 1).last() == entries@[i as int]);
        }
        if answers(&entries[i], want) {
            found.push(i);
        }
        i += 1;
    }
    assert(entries@.take(i as int) =~= entries@);
    if found.len() == 1 {
        let e: &CorpusEntry = &entries[found[0]];
        Ok((e.hash.clone(), e.path.clone()))
    } else if found.len() == 0 {
        let mut message: String = "no workbook in this corpus matches ".to_owned();
        message.push_str(debug_str(want).as_str());
        Err(message)
    } else {
        let mut message: String = debug_str(want);
        message.push_str(" matches ");
        push_decimal(&mut message, found.len() as u64);
        message.push_str(" workbooks; be more specific");
        Err(message)
    }
}

// ---------------------------------------------------------------------------
// What is held open.

/// Whether there is a model to ask for meaning. Loading it takes seconds, so it
/// is tried once, on the first question that needs it.
#[derive(Debug, Clone, Copy, PartialEq, Eq, Structural)]
pub enum Model {
    Untried,
    Loaded,
    /// This machine cannot have it, and searches by word without trying again.
    Failed,
}

impl Model {
    /// The model once loading it has been tried. What is settled stays so.
    pub open spec fn after_loading(self, loaded: bool) -> Model {
        match self {
            Model::Untried => if loaded {
                Model::Loaded
            } else {
                Model::Failed
            },
            settled => settled,
        }
    }
}

/// A workbook kept open, under the path that the corpus stores for it, whatever
/// location that resolved to.
pub struct Opened {
    pub path: String,
    pub workbook: Workbook,
}

/// The workbook kept under a path.
pub open spec fn kept(workbooks: Seq<Opened>, path: Seq<char>) -> Option<Workbook>
    decreases workbooks.len(),
{
    if workbooks.len() == 0 {
        None
    } else if workbooks.last().path@ == path {
        Some(workbooks.last().workbook)
    } else {
        kept(workbooks.drop_last(), path)
    }
}

/// What the server holds open between calls.
pub struct State {
    /// The directory of the corpus.
    pub dir: String,
    /// What the corpus lists.
    pub entries: Vec<CorpusEntry>,
    /// Whether cell values may leave this server. Set once, so that the policy is
    /// a property of the deployment rather than of each call.
    pub redact_values: bool,
    pub model: Model,
    pub workbooks: Vec<Opened>,
}

impl State {
    /// The workbooks that are open, by their path.
    pub open spec fn holds(self, path: Seq<char>) -> Option<Workbook> {
        kept(self.workbooks@, path)
    }

    /// The state of a server over the corpus at `dir`, which lists `entries`.
    pub fn open(dir: String, entries: Vec<CorpusEntry>, redact_values: bool) -> (r: State)
        ensures
            r.dir == dir,
            r.entries == entries,
            r.redact_values == redact_values,
            r.model == Model::Untried,
            forall|path: Seq<char>| (#[trigger] r.holds(path)) is None,
    {
        State { dir, entries, redact_values, model: Model::Untried, workbooks: Vec::new() }
    }

    /// Whether the model is to be loaded before the next question is asked.
    pub fn wants_model(&self) -> (r: bool)
        ensures
            r == (self.model == Model::Untried),
    {
        self.model == Model::Untried
    }

    /// Loading the model has been tried.
    pub fn model_tried(&mut self, loaded: bool)
        ensures
            *final(self) == (State { model: old(self).model.after_loading(loaded), ..*old(self) }),
    {
        if self.model == Model::Untried {
            self.model = if loaded {
                Model::Loaded
            } else {
                Model::Failed
            };
        }
    }

    /// Whether meaning can be asked for: the model is loaded, and the vectors
    /// that it compares with could be opened and are not empty. `vectors` is how
    /// many there are, where they could be opened.
    pub fn semantic(&self, vectors: Option<u64>) -> (r: bool)
        ensures
            r == (self.model == Model::Loaded && (vectors matches Some(n) && n > 0)),
    {
        self.model == Model::Loaded && match vectors {
            Some(n) => n > 0,
            None => false,
        }
    }

    /// A workbook, where it has been asked for before.
    pub fn workbook(&self, path: &str) -> (r: Option<&Workbook>)
        ensures
            match (r, self.holds(path@)) {
                (Some(w), Some(x)) => *w == x,
                (None, None) => true,
                _ => false,
            },
    {
        let mut i: usize = self.workbooks.len();
        assert(self.workbooks@.take(i as int) =~= self.workbooks@);
        while i > 0
            invariant
                i <= self.workbooks@.len(),
                self.holds(path@) == kept(self.workbooks@.take(i as int), path@),
            decreases i,
        {
            i -= 1;
            proof {
                let seen = self.workbooks@.take(i + 1);
                assert(seen.drop_last() =~= self.workbooks@.take(i as int));
                assert(seen.last() == self.workbooks@[i as int]);
            }
            if same_text(self.workbooks[i].path.as_str(), path) {
                return Some(&self.workbooks[i].workbook);
            }
        }
        None
    }

    /// Keep a workbook that was opened, for the next question about it.
    pub fn keep(&mut self, path: &str, workbook: Workbook)
        ensures
            final(self).dir == old(self).dir,
            final(self).entries == old(self).entries,
            final(self).redact_values == old(self).redact_values,
            final(self).model == old(self).model,
            forall|p: Seq<char>|
                #[trigger] final(self).holds(p) == (if p == path@ {
                    Some(workbook)
                } else {
                    old(self).holds(p)
                }),
    {
        self.workbooks.push(Opened { path: path.to_owned(), workbook });
        assert(self.workbooks@.drop_last() =~= old(self).workbooks@);
    }

    /// Resolve a workbook the caller named, or the only one there is, to its hash
    /// and its path.
    pub fn resolve(&self, wanted: Option<&str>) -> (r: Result<(String, String), String>)
        ensures
            match (
                r,
                meant(
                    self.entries@,
                    match wanted {
                        Some(w) => Some(w@),
                        None => None,
                    },
                ),
            ) {
                (Ok(found), Ok(e)) => found.0@ == e.hash@ && found.1@ == e.path@,
                (Err(message), Err(m)) => message@ == m,
                _ => false,
            },
    {
        resolve(&self.entries, wanted)
    }
}

/// The model once loading it has been tried again and again.
pub open spec fn after_tries(model: Model, tries: Seq<bool>) -> Model
    decreases tries.len(),
{
    if tries.len() == 0 {
        model
    } else {
        after_tries(model, tries.drop_last()).after_loading(tries.last())
    }
}

/// The first try settles whether there is a model: a machine that cannot have it
/// is told once, and nothing after that changes the answer.
pub proof fn the_first_try_settles_the_model(tries: Seq<bool>)
    requires
        tries.len() > 0,
    ensures
        after_tries(Model::Untried, tries) == (if tries[0] {
            Model::Loaded
        } else {
            Model::Failed
        }),
    decreases tries.len(),
{
    let before = tries.drop_last();
    if before.len() > 0 {
        the_first_try_settles_the_model(before);
    } else {
        assert(after_tries(Model::Untried, before) == Model::Untried);
    }
}

// ---------------------------------------------------------------------------
// Where a workbook's file is.

/// A place where a workbook's file could be, and whether a file is there.
#[derive(Debug, PartialEq, Eq)]
pub struct Candidate {
    pub path: String,
    pub exists: bool,
}

/// The first place from `i` on where a file is, the length where there is none.
pub open spec fn first_existing(places: Seq<Candidate>, i: nat) -> nat
    decreases places.len() - i,
{
    if i >= places.len() || places[i as int].exists {
        i
    } else {
        first_existing(places, i + 1)
    }
}

/// Where a stored path points, or why it points nowhere.
///
/// A relative path is relative to wherever the workbook was indexed from, so its
/// most likely surviving location is beside the corpus, or beside whatever holds
/// that. An absolute one has no other place to be.
pub open spec fn located(
    path: Seq<char>,
    here: bool,
    absolute: bool,
    places: Seq<Candidate>,
) -> Result<Seq<char>, Seq<char>> {
    let k = first_existing(places, 0);
    if here {
        Ok(path)
    } else if absolute {
        Err(
            "the corpus indexed "@ + path
                + ", and there is no file there now. The graph remembers where a workbook was, not where it went — re-run `eg index` if it has moved."@,
        )
    } else if k < places.len() {
        Ok(places[k as int].path@)
    } else {
        Err(
            "the corpus indexed "@ + path
                + " (a relative path), which resolves from neither this process's working directory nor the corpus directory. Either the file is actually gone, or this server is simply running from somewhere other than where `eg index` was run — re-index with an absolute path to fix it for good."@,
        )
    }
}

/// Where a stored path points: `here` says whether a file is at the path as it
/// stands, `absolute` whether the path is an absolute one.
pub fn resolve_workbook_path(
    path: &str,
    here: bool,
    absolute: bool,
    places: &Vec<Candidate>,
) -> (r: Result<String, String>)
    ensures
        match (r, located(path@, here, absolute, places@)) {
            (Ok(found), Ok(p)) => found@ == p,
            (Err(message), Err(m)) => message@ == m,
            _ => false,
        },
{
    if here {
        return Ok(path.to_owned());
    }
    let mut message: String = "the corpus indexed ".to_owned();
    message.push_str(path);
    if absolute {
        message.push_str(
            ", and there is no file there now. The graph remembers where a workbook was, not where it went — re-run `eg index` if it has moved.",
        );
        return Err(message);
    }
    let mut i: usize = 0;
    while i < places.len() && !places[i].exists
        invariant
            i <= places@.len(),
            first_existing(places@, 0) == first_existing(places@, i as nat),
        decreases places@.len() - i,
    {
        i += 1;
    }
    if i < places.len() {
        return Ok(places[i].path.clone());
    }
    message.push_str(
        " (a relative path), which resolves from neither this process's working directory nor the corpus directory. Either the file is actually gone, or this server is simply running from somewhere other than where `eg index` was run — re-index with an absolute path to fix it for good.",
    );
    Err(message)
}

/// A name is settled only on a workbook that answers to it, and on no other
/// that does.
pub proof fn a_name_is_settled_only_where_one_workbook_answers(
    entries: Seq<CorpusEntry>,
    want: Seq<char>,
    e: CorpusEntry,
    other: int,
)
    requires
        meant(entries, Some(want)) == Ok::<CorpusEntry, Seq<char>>(e),
        0 <= other < entries.len(),
        answers_to(entries[other], want),
    ensures
        entries[other] == e,
        answers_to(e, want),
{
    let keep = |x: CorpusEntry| answers_to(x, want);
    entries.lemma_filter_contains(keep, other);
    entries.lemma_filter_pred(keep, 0);
}

} // verus!
