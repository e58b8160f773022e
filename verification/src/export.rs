//! Export of photos into a folder: which name each file is copied under, so that
//! nothing there is overwritten.
use vstd::prelude::*;
use crate::formats::{ends_in_name, is_portable, last_name, may_be_name, path_file_name};
use crate::text::{
    append_decimal, decimal, decimal_is_injective, extension_follows_the_last_dot, extension_of,
    name_is_stem_and_extension,
    split_name, stem_of,
};

verus! {

/// Highest number that a name is tried with.
pub const MAX_ATTEMPT: u64 = 0x7fff_ffff;

// ---------------------------------------------------------------------------
// Names to try
// ---------------------------------------------------------------------------

/// The `i`-th name to try for a file: its own, then its own with a number in
/// brackets before the extension.
pub open spec fn candidate(name: Seq<char>, i: nat) -> Seq<char> {
    if i == 0 {
        name
    } else {
        match extension_of(name) {
            Some(e) => stem_of(name) + " ("@ + decimal(i) + ")."@ + e,
            None => stem_of(name) + " ("@ + decimal(i) + ")"@,
        }
    }
}

/// The `i`-th name to try for a file.
pub fn candidate_name(name: &str, i: u64) -> (r: String)
    ensures
        r@ == candidate(name@, i as nat),
{
    if i == 0 {
        return name.to_owned();
    }
    let (stem, ext) = split_name(name);
    let mut text: String = stem;
    text.append(" (");
    append_decimal(&mut text, i);
    match ext {
        Some(e) => {
            text.append(").");
            text.append(e.as_str());
        },
        None => {
            text.append(")");
        },
    }
    text
}

/// No name is tried twice.
pub proof fn candidates_are_distinct(name: Seq<char>, i: nat, j: nat)
    requires
        i != j,
    ensures
        candidate(name, i) != candidate(name, j),
{
    reveal_strlit(" (");
    reveal_strlit(").");
    reveal_strlit(")");
    if i == 0 {
        lemma_numbered_is_longer(name, j);
    } else if j == 0 {
        lemma_numbered_is_longer(name, i);
    } else {
        let tail = match extension_of(name) {
            Some(e) => ")."@ + e,
            None => ")"@,
        };
        let front = stem_of(name) + " ("@;
        assert(candidate(name, i) =~= front + decimal(i) + tail);
        assert(candidate(name, j) =~= front + decimal(j) + tail);
        if candidate(name, i) == candidate(name, j) {
            let (whole, n) = (candidate(name, i), candidate(name, i).len() as int);
            assert(decimal(i).len() == decimal(j).len());
            assert(decimal(i) =~= whole.subrange(front.len() as int, n - tail.len()));
            assert(decimal(j) =~= whole.subrange(front.len() as int, n - tail.len()));
            decimal_is_injective(i, j);
        }
    }
}

/// A numbered name is longer than the name itself.
proof fn lemma_numbered_is_longer(name: Seq<char>, i: nat)
    requires
        i > 0,
    ensures
        candidate(name, i).len() > name.len(),
{
    reveal_strlit(" (");
    reveal_strlit(").");
    reveal_strlit(")");
    name_is_stem_and_extension(name);
}

// ---------------------------------------------------------------------------
// The export
// ---------------------------------------------------------------------------

/// What came of an export: how many files were copied, where to, and what went
/// wrong with the others.
#[derive(Debug)]
pub struct ExportResult {
    pub copied: usize,
    pub dest: String,
    pub errors: Vec<String>,
}

/// What an export wants done next.
#[derive(Debug)]
pub enum ExportAction {
    /// Look whether the folder holds something of this name.
    Probe { name: String },
    /// Copy the file at `source` into the folder under this name.
    Copy { source: String, name: String },
    /// Nothing: all files have been seen to.
    Finish,
}

/// An export under way.
#[derive(Debug)]
pub struct ExportJob {
    pub paths: Vec<String>,
    pub dest: String,
    /// Place of the file that is being exported.
    pub at: usize,
    /// Name of that file.
    pub name: String,
    /// Number of the name that is tried for it.
    pub attempt: u64,
    /// Whether that name is free.
    pub free: bool,
    pub copied: usize,
    pub errors: Vec<String>,
}

/// Text of the error for a path that ends in no name.
pub open spec fn no_name_message(path: Seq<char>) -> Seq<char> {
    "skipped (no file name): "@ + path
}

/// Text of the error for a file that could not be copied.
pub open spec fn copy_message(path: Seq<char>, error: Seq<char>) -> Seq<char> {
    path + ": "@ + error
}

/// Text of the error for a destination that is no folder.
pub open spec fn no_folder_message(dest: Seq<char>) -> Seq<char> {
    "destination is not a folder: "@ + dest
}

/// The texts of strings.
pub open spec fn texts(v: Seq<String>) -> Seq<Seq<char>> {
    v.map_values(|s: String| s@)
}

/// The errors for the paths from place `from` up to, and not with, place `to`,
/// none of which ends in a name.
pub open spec fn skipped(paths: Seq<String>, from: int, to: int) -> Seq<Seq<char>> {
    Seq::new((to - from) as nat, |k: int| no_name_message(paths[from + k]@))
}

impl ExportJob {
    /// What every step of an export keeps.
    pub open spec fn wf(&self) -> bool {
        &&& self.at <= self.paths@.len()
        &&& self.copied + self.errors@.len() == self.at
        &&& self.attempt <= MAX_ATTEMPT
        &&& self.at < self.paths@.len() && is_portable(self.paths@[self.at as int]@) ==> last_name(
            self.paths@[self.at as int]@,
        ) == Some(self.name@)
        &&& self.at < self.paths@.len() && ends_in_name(self.paths@[self.at as int]@)
            ==> may_be_name(self.paths@[self.at as int]@, self.name@)
    }

    /// Whether all files have been seen to.
    pub open spec fn is_done(&self) -> bool {
        self.at == self.paths@.len()
    }

    /// The name that is tried for the file being exported.
    pub open spec fn target(&self) -> Seq<char> {
        candidate(self.name@, self.attempt as nat)
    }

    /// The job has moved on to the next path from place `from` on that ends in a
    /// name, with a fresh attempt, and has noted the paths that do not.
    pub open spec fn moved_on(&self, from: int, errors: Seq<Seq<char>>) -> bool {
        &&& from <= self.at <= self.paths@.len()
        &&& texts(self.errors@) == errors + skipped(self.paths@, from, self.at as int)
        &&& forall|k: int|
            from <= k < self.at && is_portable((#[trigger] self.paths@[k])@) ==> last_name(
                self.paths@[k]@,
            ) is None
        &&& forall|k: int|
            from <= k < self.at ==> !ends_in_name((#[trigger] self.paths@[k])@)
        &&& self.attempt == 0
        &&& !self.free
    }

    /// Moves on to the next path that ends in a name.
    fn settle(&mut self)
        requires
            old(self).at <= old(self).paths@.len(),
            old(self).copied + old(self).errors@.len() == old(self).at,
        ensures
            final(self).wf(),
            final(self).moved_on(old(self).at as int, texts(old(self).errors@)),
            final(self).paths@ == old(self).paths@,
            final(self).dest@ == old(self).dest@,
            final(self).copied == old(self).copied,
    {
        let ghost from: int = self.at as int;
        let ghost noted: Seq<Seq<char>> = texts(self.errors@);
        let ghost start: ExportJob = *self;
        self.attempt = 0;
        self.free = false;
        assert(texts(self.errors@) =~= noted + skipped(self.paths@, from, from));
        while self.at < self.paths.len()
            invariant
                start == *old(self),
                from == start.at,
                noted == texts(start.errors@),
                self.paths@ == start.paths@,
                self.dest@ == start.dest@,
                self.copied == start.copied,
                self.copied + self.errors@.len() == self.at,
                self.attempt == 0,
                !self.free,
                from <= self.at <= self.paths@.len(),
                texts(self.errors@) == noted + skipped(self.paths@, from, self.at as int),
                forall|k: int|
                    from <= k < self.at && is_portable((#[trigger] self.paths@[k])@) ==> last_name(
                        self.paths@[k]@,
                    ) is None,
                forall|k: int|
                    from <= k < self.at ==> !ends_in_name((#[trigger] self.paths@[k])@),
            decreases self.paths@.len() - self.at,
        {
            let path: &String = &self.paths[self.at];
            match path_file_name(path.as_str()) {
                Some(name) => {
                    self.name = name;
                    return;
                },
                None => {
                    let mut message: String = "skipped (no file name): ".to_owned();
                    message.append(path.as_str());
                    let ghost before: Seq<String> = self.errors@;
                    self.errors.push(message);
                    self.at = self.at + 1;
                    proof {
                        assert(texts(self.errors@) =~= texts(before).push(message@));
                        assert(skipped(self.paths@, from, self.at as int) =~= skipped(
                            self.paths@,
                            from,
                            self.at - 1,
                        ).push(message@));
                        assert(texts(self.errors@) =~= noted + skipped(
                            self.paths@,
                            from,
                            self.at as int,
                        ));
                    }
                },
            }
        }
    }

    /// What is to be done next: look whether the tried name is free, and once it
    /// is, copy.
    pub fn next_action(&self) -> (r: ExportAction)
        requires
            self.wf(),
        ensures
            r is Finish <==> self.is_done(),
            !self.is_done() && !self.free ==> (r matches ExportAction::Probe { name } && name@
                == self.target()),
            !self.is_done() && self.free ==> (r matches ExportAction::Copy { source, name }
                && source@ == self.paths@[self.at as int]@ && name@ == self.target()),
    {
        if self.at == self.paths.len() {
            return ExportAction::Finish;
        }
        let name: String = candidate_name(self.name.as_str(), self.attempt);
        if self.free {
            ExportAction::Copy { source: self.paths[self.at].as_str().to_owned(), name }
        } else {
            ExportAction::Probe { name }
        }
    }

    /// Takes the answer to a probe: a name that exists is not used, and the next
    /// one is tried.
    pub fn probed(&mut self, exists: bool)
        requires
            old(self).wf(),
            !old(self).is_done(),
            !old(self).free,
            exists ==> old(self).attempt < MAX_ATTEMPT,
        ensures
            final(self).wf(),
            final(self).paths@ == old(self).paths@,
            final(self).dest@ == old(self).dest@,
            final(self).at == old(self).at,
            final(self).name@ == old(self).name@,
            final(self).copied == old(self).copied,
            final(self).errors@ == old(self).errors@,
            final(self).free == !exists,
            final(self).attempt == old(self).attempt + (if exists {
                1int
            } else {
                0
            }),
    {
        if exists {
            self.attempt = self.attempt + 1;
        } else {
            self.free = true;
        }
    }

    /// Takes the outcome of a copy, counts it or notes its error, and moves on to
    /// the next file.
    pub fn copy_done(&mut self, outcome: Result<(), String>)
        requires
            old(self).wf(),
            !old(self).is_done(),
            old(self).free,
        ensures
            final(self).wf(),
            final(self).paths@ == old(self).paths@,
            final(self).dest@ == old(self).dest@,
            match outcome {
                Ok(_) => final(self).copied == old(self).copied + 1 && final(self).moved_on(
                    old(self).at + 1,
                    texts(old(self).errors@),
                ),
                Err(e) => final(self).copied == old(self).copied && final(self).moved_on(
                    old(self).at + 1,
                    texts(old(self).errors@).push(
                        copy_message(old(self).paths@[old(self).at as int]@, e@),
                    ),
                ),
            },
    {
        let count: usize = self.paths.len();
        assert(self.at < count);
        match outcome {
            Ok(_) => {
                self.copied = self.copied + 1;
            },
            Err(e) => {
                let mut message: String = self.paths[self.at].as_str().to_owned();
                message.append(": ");
                message.append(e.as_str());
                let ghost before: Seq<String> = self.errors@;
                self.errors.push(message);
                assert(texts(self.errors@) =~= texts(before).push(message@));
            },
        }
        self.at = self.at + 1;
        self.settle();
    }

    /// The result of an export that is done.
    pub fn finish(self) -> (r: ExportResult)
        requires
            self.wf(),
            self.is_done(),
        ensures
            r.copied == self.copied,
            r.dest@ == self.dest@,
            r.errors@ == self.errors@,
            r.copied + r.errors@.len() == self.paths@.len(),
    {
        ExportResult { copied: self.copied, dest: self.dest, errors: self.errors }
    }
}

/// Opens an export of the files at `paths` into the folder `dest`; an error where
/// that is no folder.
pub fn export_kept(paths: Vec<String>, dest: String, dest_is_folder: bool) -> (r: Result<
    ExportJob,
    String,
>)
    ensures
        r is Ok <==> dest_is_folder,
        r matches Ok(job) ==> {
            &&& job.wf()
            &&& job.paths@ == paths@
            &&& job.dest@ == dest@
            &&& job.copied == 0
            &&& job.moved_on(0, seq![])
        },
        r matches Err(e) ==> e@ == no_folder_message(dest@),
{
    if !dest_is_folder {
        let mut message: String = "destination is not a folder: ".to_owned();
        message.append(dest.as_str());
        return Err(message);
    }
    let mut job: ExportJob = ExportJob {
        paths,
        dest,
        at: 0,
        name: "".to_owned(),
        attempt: 0,
        free: false,
        copied: 0,
        errors: Vec::new(),
    };
    assert(texts(job.errors@) =~= seq![]);
    job.settle();
    Ok(job)
}

/// Nothing is overwritten: a name that exists is not the next one tried either,
/// and the name that is copied under is the one last found to be free.
pub proof fn taken_names_are_left_alone(before: ExportJob, after: ExportJob, exists: bool)
    requires
        before.wf(),
        !before.is_done(),
        !before.free,
        after.name@ == before.name@,
        after.free == !exists,
        after.attempt == before.attempt + (if exists {
            1int
        } else {
            0
        }),
    ensures
        exists ==> !after.free && after.target() != before.target(),
        !exists ==> after.free && after.target() == before.target(),
{
    if exists {
        candidates_are_distinct(before.name@, before.attempt as nat, after.attempt as nat);
    }
}

// ---------------------------------------------------------------------------
// What names and errors read
// ---------------------------------------------------------------------------

/// A numbered name is the stem, a space, the number in round brackets, and the
/// extension behind its dot: `photo (2).jpg` for the second try of `photo.jpg`, and
/// `notes (2)` for that of `notes`.
pub proof fn numbered_names_keep_stem_and_extension(stem: Seq<char>, ext: Seq<char>, i: nat)
    requires
        i > 0,
        stem.len() > 0,
        ext.len() > 0,
        !ext.contains('.'),
    ensures
        candidate(stem.push('.') + ext, 0) == stem.push('.') + ext,
        candidate(stem.push('.') + ext, i) == stem + seq![' ', '('] + decimal(i) + seq![')', '.']
            + ext,
        candidate(ext, i) == ext + seq![' ', '('] + decimal(i) + seq![')'],
        extension_of(candidate(stem.push('.') + ext, i)) == Some(ext),
{
    extension_follows_the_last_dot(stem, ext);
    reveal_strlit(" (");
    reveal_strlit(").");
    reveal_strlit(")");
    assert(" ("@ =~= seq![' ', '(']);
    assert(")."@ =~= seq![')', '.']);
    assert(")"@ =~= seq![')']);
    name_is_stem_and_extension(ext);
    let front = stem + seq![' ', '('] + decimal(i) + seq![')'];
    assert(candidate(stem.push('.') + ext, i) =~= front.push('.') + ext);
    extension_follows_the_last_dot(front, ext);
}

/// Every error names the path it is about: behind a note where the path ends in no
/// name, before what went wrong where the file could not be copied.
pub proof fn errors_name_the_path(path: Seq<char>, error: Seq<char>)
    ensures
        no_name_message(path).take(24) == "skipped (no file name): "@,
        no_name_message(path).skip(24) == path,
        copy_message(path, error) == path + seq![':', ' '] + error,
        no_folder_message(path).take(29) == "destination is not a folder: "@,
        no_folder_message(path).skip(29) == path,
{
    reveal_strlit("skipped (no file name): ");
    reveal_strlit(": ");
    reveal_strlit("destination is not a folder: ");
    assert(no_name_message(path).take(24) =~= "skipped (no file name): "@);
    assert(no_folder_message(path).take(29) =~= "destination is not a folder: "@);
    assert(no_name_message(path).skip(24) =~= path);
    assert(no_folder_message(path).skip(29) =~= path);
    assert(": "@ =~= seq![':', ' ']);
}

/// A job that has moved on stands at the first path, from the given one on, that ends in
/// a name, or at the end; each path it has passed has its own error, in order.
pub proof fn passed_paths_have_their_errors(
    job: &ExportJob,
    from: int,
    errors: Seq<Seq<char>>,
    k: int,
)
    requires
        0 <= from,
        job.moved_on(from, errors),
        from <= k < job.at,
    ensures
        job.errors@.len() == errors.len() + (job.at - from),
        job.errors@[errors.len() + (k - from)]@ == no_name_message(job.paths@[k]@),
        is_portable(job.paths@[k]@) ==> last_name(job.paths@[k]@) is None,
        job.attempt == 0 && !job.free,
{
    let all = texts(job.errors@);
    assert(all.len() == job.errors@.len());
    assert(skipped(job.paths@, from, job.at as int).len() == job.at - from);
    assert(all[errors.len() + (k - from)] == skipped(job.paths@, from, job.at as int)[k - from]);
}

} // verus!
