//! Patch generation: what each staged file contributes to a diff, and the
//! mail-formatted patch body that the diffs are gathered into. Running the
//! line diff itself is left to the caller.
use vstd::prelude::*;
use crate::records::{copy_bytes, Change, File};
use crate::repo::Repo;
use crate::store::{RemotePeer, Store};
use crate::text::{chars_of, push_chars, string_of};

verus! {

/// The two sides of one file's diff: a label and the contents for each, the
/// contents absent where that side does not exist (a pure addition or
/// deletion, diffed against `/dev/null`).
#[derive(Debug)]
pub struct PatchPart {
    pub old_label: String,
    pub old_contents: Option<Vec<u8>>,
    pub new_label: String,
    pub new_contents: Option<Vec<u8>>,
}

pub ghost struct PartView {
    pub old_label: Seq<char>,
    pub old_contents: Option<Seq<u8>>,
    pub new_label: Seq<char>,
    pub new_contents: Option<Seq<u8>>,
}

pub open spec fn opt_bytes(b: Option<Vec<u8>>) -> Option<Seq<u8>> {
    match b {
        Some(v) => Some(v@),
        None => None,
    }
}

impl View for PatchPart {
    type V = PartView;

    open spec fn view(&self) -> PartView {
        PartView {
            old_label: self.old_label@,
            old_contents: opt_bytes(self.old_contents),
            new_label: self.new_label@,
            new_contents: opt_bytes(self.new_contents),
        }
    }
}

pub open spec fn null_label() -> Seq<char> {
    "/dev/null"@
}

/// The diff of staged file `f` against its based version `b`: `b/<name>` to
/// `a/<name>`, with `/dev/null` for a side that does not exist.
pub open spec fn part_for(f: crate::records::FileView, b: crate::records::FileView) -> PartView {
    PartView {
        old_label: if b.found { seq!['b'] + b.filename } else { null_label() },
        old_contents: if b.found { Some(b.contents) } else { None },
        new_label: if !f.deleted { seq!['a'] + f.filename } else { null_label() },
        new_contents: if !f.deleted { Some(f.contents) } else { None },
    }
}

/// The head of the patch mail.
pub open spec fn patch_header(summary: Seq<char>) -> Seq<char> {
    "From: Weld <weld@weld.io>\nSubject: [PATCH 1/1] "@ + summary + "\n\n"@
}

/// All of `parts`, one after another.
pub open spec fn joined(parts: Seq<Seq<char>>) -> Seq<char>
    decreases parts.len(),
{
    if parts.len() == 0 {
        Seq::empty()
    } else {
        joined(parts.drop_last()) + parts.last()
    }
}

fn labelled(prefix: char, name: &String) -> (r: String)
    ensures
        r@ == seq![prefix] + name@,
{
    let mut r = String::new();
    crate::text::push_char(&mut r, prefix);
    push_chars(&mut r, &chars_of(name.as_str()));
    assert(Seq::<char>::empty().push(prefix) + name@ =~= seq![prefix] + name@);
    r
}

/// The diff inputs for staged file `f` against its based version `b`.
pub fn part_of(f: &File, b: &File) -> (r: PatchPart)
    ensures
        r@ == part_for(f@, b@),
{
    let (old_label, old_contents) = if b.found {
        (labelled('b', &b.filename), Some(copy_bytes(&b.contents)))
    } else {
        (string_of(&chars_of("/dev/null")), None)
    };
    let (new_label, new_contents) = if !f.deleted {
        (labelled('a', &f.filename), Some(copy_bytes(&f.contents)))
    } else {
        (string_of(&chars_of("/dev/null")), None)
    };
    PatchPart { old_label, old_contents, new_label, new_contents }
}

/// The patch mail: its head with `summary` as the subject, then each diff
/// in order.
pub fn assemble_patch(summary: &str, diffs: &Vec<String>) -> (r: String)
    ensures
        r@ == patch_header(summary@) + joined(diffs@.map_values(|d: String| d@)),
{
    let mut r = string_of(&chars_of("From: Weld <weld@weld.io>\nSubject: [PATCH 1/1] "));
    push_chars(&mut r, &chars_of(summary));
    push_chars(&mut r, &chars_of("\n\n"));
    let ghost head = r@;
    let mut i: usize = 0;
    while i < diffs.len()
        invariant
            i <= diffs@.len(),
            r@ == head + joined(diffs@.subrange(0, i as int).map_values(|d: String| d@)),
        decreases diffs@.len() - i,
    {
        push_chars(&mut r, &chars_of(diffs[i].as_str()));
        proof {
            let ds = diffs@.subrange(0, i + 1).map_values(|d: String| d@);
            assert(ds.drop_last() =~= diffs@.subrange(0, i as int).map_values(|d: String| d@));
        }
        i = i + 1;
    }
    assert(diffs@.subrange(0, diffs@.len() as int) =~= diffs@);
    r
}

impl<S: Store, P: RemotePeer> Repo<S, P> {
    /// The diff inputs of each staged file of `change`, in order, against
    /// the version it is based on.
    pub fn patch_parts(&mut self, change: &Change) -> (r: Vec<PatchPart>)
        requires
            old(self).wf(),
        ensures
            final(self).keeps(old(self)),
            r@.len() == change.staged_files@.len(),
            forall|i: int|
                0 <= i < r@.len() ==> (#[trigger] r@[i])@ == part_for(
                    change.staged_files@[i]@,
                    crate::repo::based_version(
                        old(self).records(),
                        old(self).peer(),
                        change@,
                        change.staged_files@[i]@.filename,
                    ),
                ),
    {
        let mut r: Vec<PatchPart> = Vec::new();
        let mut i: usize = 0;
        while i < change.staged_files.len()
            invariant
                self.keeps(old(self)),
                i <= change.staged_files@.len(),
                r@.len() == i,
                forall|k: int|
                    0 <= k < i ==> (#[trigger] r@[k])@ == part_for(
                        change.staged_files@[k]@,
                        crate::repo::based_version(
                            old(self).records(),
                            old(self).peer(),
                            change@,
                            change.staged_files@[k]@.filename,
                        ),
                    ),
            decreases change.staged_files@.len() - i,
        {
            let based = self.based_file(change, change.staged_files[i].filename.as_str());
            r.push(part_of(&change.staged_files[i], &based));
            i = i + 1;
        }
        r
    }
}

} // verus!
