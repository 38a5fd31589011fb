//! The portrait upload list: each file is matched to a Net2 user by its
//! name, the operator checks the matches, then they are uploaded. Each upload
//! reads the user again first, so a record that changed since it was checked
//! is not written over.
use vstd::prelude::*;
use crate::json::json_reply;
use crate::net2::{
    blob_dimensions, check_portrait, duplicate_flags, failure, is_duplicate, portrait_problem,
    portrait_user_id, read_user, user_id_of, user_name, user_reply, Failure, User, UserView,
    owned, NAME_RULE, UNEXPECTED,
};
use crate::text::{append_chars, append_str, chars_of, decimal_chars, decimal_text, string_of};

verus! {

/// A file in the upload list: its name, the user ID the name gives, the
/// user it was matched with, and how it stands.
#[derive(Debug)]
pub struct Portrait {
    pub filename: String,
    pub id: Option<i32>,
    pub user: Option<User>,
    pub status: String,
    pub problem: bool,
    pub done: bool,
    /// Net2 may have saved it; checking it there comes before any retry.
    pub unsure: bool,
}

/// A portrait as the specifications see it.
pub struct PortraitView {
    pub filename: Seq<char>,
    pub id: Option<i32>,
    pub user: Option<UserView>,
    pub status: Seq<char>,
    pub problem: bool,
    pub done: bool,
    pub unsure: bool,
}

impl View for Portrait {
    type V = PortraitView;

    open spec fn view(&self) -> PortraitView {
        PortraitView {
            filename: self.filename@,
            id: self.id,
            user: match self.user {
                Some(u) => Some(u@),
                None => None,
            },
            status: self.status@,
            problem: self.problem,
            done: self.done,
            unsure: self.unsure,
        }
    }
}

/// A new entry for a file: its user ID if the name gives one, or the rule
/// for names as its problem.
pub open spec fn new_portrait(filename: Seq<char>) -> PortraitView {
    match user_id_of(filename) {
        Some(id) => PortraitView {
            filename,
            id: Some(id),
            user: None,
            status: "Not checked"@,
            problem: false,
            done: false,
            unsure: false,
        },
        None => PortraitView {
            filename,
            id: None,
            user: None,
            status: NAME_RULE@,
            problem: true,
            done: false,
            unsure: false,
        },
    }
}

/// Still to be checked or uploaded.
pub open spec fn pending_of(p: PortraitView) -> bool {
    !p.problem && !p.done && !p.unsure
}

/// Ready to upload: pending, matched, and either without a portrait or
/// replacing the one there is.
pub open spec fn ready_of(p: PortraitView, replace: bool) -> bool {
    pending_of(p) && (p.user matches Some(u) && (replace || !u.has_image))
}

/// An entry with a problem, shown as its status.
pub open spec fn failed(p: PortraitView, message: Seq<char>) -> PortraitView {
    PortraitView { problem: true, status: message, ..p }
}

/// An entry after its file was looked at: without the first bytes of the
/// file nothing can be said; otherwise whatever `check_portrait` finds wrong
/// is its problem. An entry whose name gave no ID is left as it is.
pub open spec fn file_checked_of(p: PortraitView, header: Option<Seq<u8>>, size: usize) -> PortraitView {
    if p.id is None {
        p
    } else {
        match header {
            None => failed(p, "The image could not be read."@),
            Some(h) => match portrait_problem(p.filename, h, size, blob_dimensions(h)) {
                Some(m) => failed(p, m),
                None => p,
            },
        }
    }
}

/// An entry after Net2 was asked for its user: the user as read, with whether
/// they already have a portrait; the reason a reply could not be used; or the
/// refusal, which leaves the entry unmatched.
pub open spec fn reviewed_of(p: PortraitView, reply: Result<Seq<char>, (Seq<char>, bool, bool, bool)>) -> PortraitView {
    match p.id {
        None => p,
        Some(id) => match reply {
            Ok(body) => match user_reply(json_reply(body), id) {
                Some(u) => PortraitView {
                    user: Some(u),
                    status: if u.has_image { "Has a portrait: tick Replace to overwrite it"@ } else { "Ready"@ },
                    ..p
                },
                None => PortraitView { status: UNEXPECTED@, ..p },
            },
            Err(problem) => PortraitView { user: None, status: problem.0, ..p },
        },
    }
}

/// A failure as the specifications see it.
pub open spec fn failure_view(f: Failure) -> (Seq<char>, bool, bool, bool) {
    (f.message@, f.uncertain, f.halt, f.expired)
}

/// A reply as the specifications see it.
pub open spec fn reply_view(r: Result<String, Failure>) -> Result<Seq<char>, (Seq<char>, bool, bool, bool)> {
    match r {
        Ok(body) => Ok(body@),
        Err(f) => Err(failure_view(f)),
    }
}

/// Whether the user read just before an upload still allows it: it must be
/// the user asked for, with the name that was checked, and without a portrait
/// unless replacing. `None` when it may go ahead; otherwise the reason.
pub open spec fn upload_refusal_of(body: Seq<char>, id: i32, checked_name: Seq<char>, replace: bool) -> Option<Seq<char>> {
    match user_reply(json_reply(body), id) {
        None => Some(UNEXPECTED@),
        Some(u) => if user_name(u.first, u.middle, u.last) != checked_name {
            Some("This person changed in Net2 since the check. Check matches again."@)
        } else if u.has_image && !replace {
            Some("This person now has a portrait. Check matches again."@)
        } else {
            None
        },
    }
}

/// An entry after its upload: uploaded, or unmatched with the failure as
/// its status, and unsure when the write may have landed.
pub open spec fn uploaded_of(p: PortraitView, outcome: Result<(), (Seq<char>, bool, bool, bool)>) -> PortraitView {
    match outcome {
        Ok(_) => PortraitView { done: true, status: "Uploaded"@, ..p },
        Err(problem) => PortraitView { user: None, unsure: problem.1, status: problem.0, ..p },
    }
}

/// The label of the upload button.
pub open spec fn upload_label_of(ready: nat) -> Seq<char> {
    if ready == 0 {
        "Upload portraits"@
    } else if ready == 1 {
        "Upload 1 portrait"@
    } else {
        "Upload "@ + decimal_text(ready) + " portraits"@
    }
}

/// What the page says when an upload run ends.
pub open spec fn upload_notice_of(halted: bool, uploaded: nat, total: nat) -> Seq<char> {
    (if halted { "Stopped. "@ } else { "Done. "@ }) + decimal_text(uploaded) + " of "@ + decimal_text(total)
        + " uploaded. Check each result before trying again."@
}

/// How many entries have a problem.
pub open spec fn problem_count(rows: Seq<PortraitView>) -> nat
    decreases rows.len(),
{
    if rows.len() == 0 {
        0
    } else {
        problem_count(rows.drop_last()) + if rows.last().problem { 1nat } else { 0nat }
    }
}

/// How many entries are ready to upload.
pub open spec fn ready_count_of(rows: Seq<PortraitView>, replace: bool) -> nat
    decreases rows.len(),
{
    if rows.len() == 0 {
        0
    } else {
        ready_count_of(rows.drop_last(), replace) + if ready_of(rows.last(), replace) { 1nat } else { 0nat }
    }
}

/// Entries as the specifications see them.
pub open spec fn rows_view(rows: Seq<Portrait>) -> Seq<PortraitView> {
    rows.map_values(|p: Portrait| p@)
}

/// An upload goes ahead only for the user asked for, still under the name
/// the operator checked, and without a portrait unless portraits are
/// replaced.
pub proof fn lemma_upload_only_for_the_person_checked(body: Seq<char>, id: i32, checked_name: Seq<char>, replace: bool)
    ensures
        upload_refusal_of(body, id, checked_name, replace) is None ==> (user_reply(json_reply(body), id) matches Some(u)
            && u.id == id && user_name(u.first, u.middle, u.last) == checked_name && (replace || !u.has_image)),
{
}

/// An upload that may have landed leaves its entry unsure: it is neither
/// pending nor ready, so it is checked in Net2 before any retry.
pub proof fn lemma_uncertain_upload_is_not_retried(p: PortraitView, problem: (Seq<char>, bool, bool, bool), replace: bool)
    requires
        problem.1,
    ensures
        !pending_of(uploaded_of(p, Err(problem))),
        !ready_of(uploaded_of(p, Err(problem)), replace),
{
}

impl Portrait {
    /// A new entry for a file, matched to a user ID by its name.
    pub fn new(filename: String) -> (res: Portrait)
        ensures
            res@ == new_portrait(filename@),
    {
        match portrait_user_id(filename.as_str()) {
            Ok(id) => Portrait {
                filename,
                id: Some(id),
                user: None,
                status: owned("Not checked"),
                problem: false,
                done: false,
                unsure: false,
            },
            Err(message) => Portrait {
                filename,
                id: None,
                user: None,
                status: message,
                problem: true,
                done: false,
                unsure: false,
            },
        }
    }

    /// Still to be checked or uploaded.
    pub fn pending(&self) -> (res: bool)
        ensures
            res == pending_of(self@),
    {
        !self.problem && !self.done && !self.unsure
    }

    /// Ready to upload.
    pub fn ready(&self, replace: bool) -> (res: bool)
        ensures
            res == ready_of(self@, replace),
    {
        self.pending() && match &self.user {
            Some(u) => replace || !u.has_image,
            None => false,
        }
    }

    /// Mark the entry as having a problem, shown as its status.
    pub fn fail(&mut self, message: String)
        ensures
            final(self)@ == failed(old(self)@, message@),
    {
        self.problem = true;
        self.status = message;
    }

    /// Look at the file's first bytes (`None` when they could not be read)
    /// and its whole size. True when the file can go to Net2 as it is.
    pub fn check_file(&mut self, header: Option<&[u8]>, size: usize) -> (res: bool)
        ensures
            final(self)@ == file_checked_of(old(self)@, match header {
                Some(h) => Some(h@),
                None => None,
            }, size),
            res == (old(self)@.id is Some && (header matches Some(h)
                && portrait_problem(old(self)@.filename, h@, size, blob_dimensions(h@)) is None)),
    {
        if self.id.is_none() {
            return false;
        }
        match header {
            None => {
                self.fail(owned("The image could not be read."));
                false
            }
            Some(bytes) => match check_portrait(self.filename.as_str(), bytes, size) {
                Ok(()) => true,
                Err(message) => {
                    self.fail(message);
                    false
                }
            },
        }
    }

    /// Take Net2's reply to the request for this entry's user.
    pub fn reviewed(&mut self, reply: Result<String, Failure>)
        ensures
            final(self)@ == reviewed_of(old(self)@, reply_view(reply)),
    {
        let id = match self.id {
            Some(id) => id,
            None => return,
        };
        match reply {
            Ok(body) => match read_user(body.as_str(), id) {
                Ok(user) => {
                    self.status = if user.has_image {
                        owned("Has a portrait: tick Replace to overwrite it")
                    } else {
                        owned("Ready")
                    };
                    self.user = Some(user);
                }
                Err(message) => self.status = message,
            },
            Err(problem) => {
                self.user = None;
                self.status = problem.message;
            }
        }
    }

    /// Take the outcome of this entry's upload. True when the run must
    /// stop: the session is gone, Net2 is rate limiting, or the write may
    /// have landed.
    pub fn uploaded(&mut self, outcome: Result<(), Failure>) -> (stop: bool)
        ensures
            final(self)@ == uploaded_of(old(self)@, match outcome {
                Ok(()) => Ok(()),
                Err(f) => Err(failure_view(f)),
            }),
            stop == (outcome matches Err(f) && (f.halt || f.uncertain)),
    {
        match outcome {
            Ok(()) => {
                self.done = true;
                self.status = owned("Uploaded");
                false
            }
            Err(problem) => {
                let stop = problem.halt || problem.uncertain;
                self.user = None;
                self.unsure = problem.uncertain;
                self.status = problem.message;
                stop
            }
        }
    }
}

/// Whether an upload may go ahead, given the user's record read just before
/// it, the name the operator checked, and whether portraits are replaced.
pub fn upload_check(body: &str, id: i32, checked_name: &str, replace: bool) -> (res: Result<(), Failure>)
    ensures
        match upload_refusal_of(body@, id, checked_name@, replace) {
            None => res is Ok,
            Some(m) => res matches Err(f) && f.message@ == m && !f.uncertain && !f.halt && !f.expired,
        },
{
    let now = match read_user(body, id) {
        Ok(user) => user,
        Err(message) => return Err(failure(message, false, false)),
    };
    let name = now.name();
    if !crate::text::chars_equal(chars_of(name.as_str()).as_slice(), chars_of(checked_name).as_slice()) {
        return Err(failure(owned("This person changed in Net2 since the check. Check matches again."), false, false));
    }
    if now.has_image && !replace {
        return Err(failure(owned("This person now has a portrait. Check matches again."), false, false));
    }
    Ok(())
}

/// Mark every entry whose user ID another entry also has.
pub fn mark_duplicates(rows: &mut Vec<Portrait>)
    ensures
        final(rows)@.len() == old(rows)@.len(),
        forall|i: int| 0 <= i < old(rows)@.len() ==> (#[trigger] final(rows)@[i])@ == if is_duplicate(
            old(rows)@.map_values(|p: Portrait| p.id),
            i,
        ) {
            failed(old(rows)@[i]@, "More than one file has this user ID."@)
        } else {
            old(rows)@[i]@
        },
{
    let ghost ids_spec = old(rows)@.map_values(|p: Portrait| p.id);
    let mut ids: Vec<Option<i32>> = Vec::new();
    let n = rows.len();
    let mut k: usize = 0;
    while k < n
        invariant
            k <= n == rows@.len(),
            rows@ == old(rows)@,
            ids@ == ids_spec.take(k as int),
            ids_spec == old(rows)@.map_values(|p: Portrait| p.id),
        decreases n - k,
    {
        ids.push(rows[k].id);
        assert(ids_spec.take(k + 1) =~= ids_spec.take(k as int).push(rows@[k as int].id));
        k = k + 1;
    }
    assert(ids_spec.take(n as int) =~= ids_spec);
    let flags = duplicate_flags(ids.as_slice());
    let mut j: usize = 0;
    while j < n
        invariant
            j <= n == rows@.len() == old(rows)@.len(),
            flags@.len() == n,
            ids@ == ids_spec,
            ids_spec == old(rows)@.map_values(|p: Portrait| p.id),
            forall|i: int| 0 <= i < n ==> flags@[i] == is_duplicate(ids_spec, i),
            forall|i: int| j <= i < n ==> #[trigger] rows@[i] == old(rows)@[i],
            forall|i: int| 0 <= i < j ==> (#[trigger] rows@[i])@ == if is_duplicate(ids_spec, i) {
                failed(old(rows)@[i]@, "More than one file has this user ID."@)
            } else {
                old(rows)@[i]@
            },
        decreases n - j,
    {
        if flags[j] {
            let mut row = rows.remove(j);
            row.fail(owned("More than one file has this user ID."));
            rows.insert(j, row);
        }
        j = j + 1;
    }
}

/// A new operator may be a different person, so every pending match is
/// forgotten and checked again.
pub fn forget_matches(rows: &mut Vec<Portrait>)
    ensures
        final(rows)@.len() == old(rows)@.len(),
        forall|i: int| 0 <= i < old(rows)@.len() ==> (#[trigger] final(rows)@[i])@ == if pending_of(old(rows)@[i]@) {
            PortraitView { user: None, status: "Not checked"@, ..old(rows)@[i]@ }
        } else {
            old(rows)@[i]@
        },
{
    let n = rows.len();
    let mut j: usize = 0;
    while j < n
        invariant
            j <= n == rows@.len() == old(rows)@.len(),
            forall|i: int| j <= i < n ==> #[trigger] rows@[i] == old(rows)@[i],
            forall|i: int| 0 <= i < j ==> (#[trigger] rows@[i])@ == if pending_of(old(rows)@[i]@) {
                PortraitView { user: None, status: "Not checked"@, ..old(rows)@[i]@ }
            } else {
                old(rows)@[i]@
            },
        decreases n - j,
    {
        if rows[j].pending() {
            let mut row = rows.remove(j);
            row.user = None;
            row.status = owned("Not checked");
            rows.insert(j, row);
        }
        j = j + 1;
    }
}

/// How many entries have a problem.
pub fn problems(rows: &Vec<Portrait>) -> (res: usize)
    ensures
        res == problem_count(rows_view(rows@)),
{
    let ghost all = rows_view(rows@);
    let n = rows.len();
    let mut count: usize = 0;
    let mut k: usize = 0;
    while k < n
        invariant
            k <= n == rows@.len(),
            all == rows_view(rows@),
            count == problem_count(all.take(k as int)),
            count <= k,
        decreases n - k,
    {
        proof {
            assert(all.take(k + 1).drop_last() =~= all.take(k as int));
            assert(all.take(k + 1).last() == rows@[k as int]@);
        }
        if rows[k].problem {
            count = count + 1;
        }
        k = k + 1;
    }
    assert(all.take(n as int) =~= all);
    count
}

/// How many entries are ready to upload.
pub fn ready_count(rows: &Vec<Portrait>, replace: bool) -> (res: usize)
    ensures
        res == ready_count_of(rows_view(rows@), replace),
{
    let ghost all = rows_view(rows@);
    let n = rows.len();
    let mut count: usize = 0;
    let mut k: usize = 0;
    while k < n
        invariant
            k <= n == rows@.len(),
            all == rows_view(rows@),
            count == ready_count_of(all.take(k as int), replace),
            count <= k,
        decreases n - k,
    {
        proof {
            assert(all.take(k + 1).drop_last() =~= all.take(k as int));
            assert(all.take(k + 1).last() == rows@[k as int]@);
        }
        if rows[k].ready(replace) {
            count = count + 1;
        }
        k = k + 1;
    }
    assert(all.take(n as int) =~= all);
    count
}

/// What the page says once files are chosen.
pub fn chosen_notice(rows: &Vec<Portrait>) -> (res: String)
    ensures
        res@ == decimal_text(rows@.len()) + " chosen, "@ + decimal_text(problem_count(rows_view(rows@)))
            + " with problems. Check matches before uploading."@,
{
    let mut out: Vec<char> = Vec::new();
    append_chars(&mut out, decimal_chars(rows.len() as u64).as_slice());
    append_str(&mut out, " chosen, ");
    append_chars(&mut out, decimal_chars(problems(rows) as u64).as_slice());
    append_str(&mut out, " with problems. Check matches before uploading.");
    string_of(out.as_slice())
}

/// The label of the upload button.
pub fn upload_label(ready: usize) -> (res: String)
    ensures
        res@ == upload_label_of(ready as nat),
{
    if ready == 0 {
        owned("Upload portraits")
    } else if ready == 1 {
        owned("Upload 1 portrait")
    } else {
        let mut out: Vec<char> = Vec::new();
        append_str(&mut out, "Upload ");
        append_chars(&mut out, decimal_chars(ready as u64).as_slice());
        append_str(&mut out, " portraits");
        string_of(out.as_slice())
    }
}

/// What the page says when an upload run ends.
pub fn upload_notice(halted: bool, uploaded: usize, total: usize) -> (res: String)
    ensures
        res@ == upload_notice_of(halted, uploaded as nat, total as nat),
{
    let mut out: Vec<char> = Vec::new();
    if halted {
        append_str(&mut out, "Stopped. ");
    } else {
        append_str(&mut out, "Done. ");
    }
    append_chars(&mut out, decimal_chars(uploaded as u64).as_slice());
    append_str(&mut out, " of ");
    append_chars(&mut out, decimal_chars(total as u64).as_slice());
    append_str(&mut out, " uploaded. Check each result before trying again.");
    string_of(out.as_slice())
}

} // verus!
