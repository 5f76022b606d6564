//! The version of the application and the comparison of the commit it was
//! built from with the latest commit of the repository.

use vstd::prelude::*;
use vstd::string::StringSliceAdditionalSpecFns;
use vstd::utf8::{encode_utf8, is_char_boundary};
use crate::text::{first_line, first_line_or, starts_with, take_chars};

verus! {

/// The version of the application and the commit it was built from (empty
/// when built without git, which turns the update check off).
#[derive(Debug, Clone)]
pub struct AppInfo {
    pub version: String,
    pub git_sha: String,
}

/// Whether a newer commit exists, with its short id, first message line
/// and date.
#[derive(Debug, Clone)]
pub struct UpdateInfo {
    pub available: bool,
    pub latest_sha: String,
    pub message: String,
    pub date: String,
}

/// `u` compares the local commit `local` with the latest commit `sha`,
/// whose message is `message` and whose committer date is `date`.
pub open spec fn update_is(u: UpdateInfo, local: Seq<char>, sha: Seq<char>, message: Seq<char>, date: &str) -> bool {
    let b = date.spec_bytes();
    &&& u.available == (local.len() > 0 && !(local.len() <= sha.len() && sha.take(local.len() as int) == local))
    &&& u.latest_sha@ == sha.take(if sha.len() < 8 { sha.len() as int } else { 8 })
    &&& u.message@ == match first_line(message) {
        Some(l) => l,
        None => ""@,
    }
    &&& if b.len() >= 10 && is_char_boundary(b, 10) {
        encode_utf8(u.date@) == b.take(10)
    } else {
        u.date@.len() == 0
    }
}

/// The update summary: an update is available when the build has a commit
/// id and the latest commit does not begin with it.
pub fn update_info(local_sha: &str, sha: &str, message: &str, date: &str) -> (r: UpdateInfo)
    ensures
        update_is(r, local_sha@, sha@, message@, date),
{
    let available = !local_sha.is_empty() && !starts_with(sha, local_sha);
    let byte_len = date.as_bytes().len();
    let date_text = if byte_len >= 10 && date.is_char_boundary(10) {
        let (head, _) = date.split_at(10);
        head.to_owned()
    } else {
        String::new()
    };
    assert(if date.spec_bytes().len() >= 10 && is_char_boundary(date.spec_bytes(), 10) {
        encode_utf8(date_text@) == date.spec_bytes().take(10)
    } else {
        date_text@.len() == 0
    });
    let latest_sha = take_chars(sha, 8);
    let msg = first_line_or(message, "");
    assert(latest_sha@ == sha@.take(if sha@.len() < 8 { sha@.len() as int } else { 8 }));
    assert(msg@ == match first_line(message@) {
        Some(l) => l,
        None => ""@,
    });
    assert(available == (local_sha@.len() > 0 && !(local_sha@.len() <= sha@.len() && sha@.take(local_sha@.len() as int) == local_sha@)));
    UpdateInfo {
        available,
        latest_sha,
        message: msg,
        date: date_text,
    }
}

} // verus!
