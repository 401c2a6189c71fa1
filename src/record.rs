//! Recognising step-function execution lines and turning them into records.
use vstd::prelude::*;

use crate::text::{has_prefix, join_on, join_seq, split_on, split_seq, starts_with, views};

verus! {

#[verifier::external_type_specification]
#[verifier::external_body]
pub struct ExJsonValue(serde_json::Value);

/// What `str::trim` leaves of a text.
pub uninterp spec fn trimmed(s: Seq<char>) -> Seq<char>;

/// What `serde_json::from_str` reads from a text: `None` where it is not JSON.
pub uninterp spec fn json_of(s: Seq<char>) -> Option<serde_json::Value>;

/// Relies on `str::trim`: leading and trailing whitespace removed.
#[verifier::external_body]
fn trim_text(s: &str) -> (r: String)
    ensures
        r@ == trimmed(s@),
{
    s.trim().to_string()
}

/// Relies on `serde_json::from_str` into a `serde_json::Value`; a parse error becomes `None`.
#[verifier::external_body]
fn parse_json(s: &str) -> (r: Option<serde_json::Value>)
    ensures
        r == json_of(s@),
{
    serde_json::from_str(s).ok()
}

/// Relies on `Clone for serde_json::Value`, derived: the copy equals the original.
pub assume_specification[ <serde_json::Value as Clone>::clone ](v: &serde_json::Value) -> (r: serde_json::Value)
    ensures
        r == *v,
;

/// One accepted execution log entry.
pub struct Log {
    pub date: String,
    pub execution_arn: String,
    pub message: serde_json::Value,
}

/// The mathematical content of a [`Log`].
pub struct LogView {
    pub date: Seq<char>,
    pub execution_arn: Seq<char>,
    pub message: serde_json::Value,
}

impl View for Log {
    type V = LogView;

    open spec fn view(&self) -> LogView {
        LogView { date: self.date@, execution_arn: self.execution_arn@, message: self.message }
    }
}

impl Log {
    /// A copy of this record.
    pub fn clone_log(&self) -> (r: Log)
        ensures
            r@ == self@,
    {
        Log {
            date: self.date.clone(),
            execution_arn: self.execution_arn.clone(),
            message: self.message.clone(),
        }
    }
}

/// The separator between the fields of a line.
pub open spec fn field_sep() -> Seq<char> {
    ": "@
}

/// The prefix that marks a step-function execution identifier.
pub open spec fn arn_prefix() -> Seq<char> {
    "arn:aws:states:"@
}

/// The pieces of a line between separators.
pub open spec fn pieces(line: Seq<char>) -> Seq<Seq<char>> {
    split_seq(line, field_sep())
}

/// The timestamp of a line: its first piece, trimmed.
pub open spec fn line_date(line: Seq<char>) -> Seq<char> {
    trimmed(pieces(line)[0])
}

/// The candidate identifier of a line: its second piece, trimmed.
pub open spec fn line_arn(line: Seq<char>) -> Seq<char> {
    trimmed(pieces(line)[1])
}

/// The pieces after the second, each trimmed.
pub open spec fn trimmed_tail(line: Seq<char>) -> Seq<Seq<char>> {
    pieces(line).skip(2).map_values(|p: Seq<char>| trimmed(p))
}

/// The payload text of a line: the later pieces, trimmed and rejoined.
pub open spec fn line_payload(line: Seq<char>) -> Seq<char> {
    join_seq(trimmed_tail(line), field_sep())
}

/// The record that a line yields, if it has the expected shape.
pub open spec fn line_record(line: Seq<char>) -> Option<LogView> {
    if pieces(line).len() < 2 {
        None
    } else if !has_prefix(line_arn(line), arn_prefix()) {
        None
    } else {
        match json_of(line_payload(line)) {
            Some(v) => Some(LogView { date: line_date(line), execution_arn: line_arn(line), message: v }),
            None => None,
        }
    }
}

/// Parses one decoded line into a record; lines of any other shape give `None`.
pub fn parse_line(line: &str) -> (r: Option<Log>)
    ensures
        match r {
            Some(log) => line_record(line@) == Some(log@),
            None => line_record(line@) is None,
        },
{
    proof {
        reveal_strlit(": ");
    }
    let segs = split_on(line, ": ");
    if segs.len() < 2 {
        return None;
    }
    let date = trim_text(segs[0].as_str());
    let execution_arn = trim_text(segs[1].as_str());
    if !starts_with(execution_arn.as_str(), "arn:aws:states:") {
        return None;
    }
    let ghost ps = pieces(line@);
    let mut rest: Vec<String> = Vec::new();
    let mut i: usize = 2;
    while i < segs.len()
        invariant
            views(segs@) == ps,
            2 <= i <= segs@.len(),
            views(rest@) =~= ps.subrange(2, i as int).map_values(|p: Seq<char>| trimmed(p)),
        decreases segs@.len() - i,
    {
        let t = trim_text(segs[i].as_str());
        proof {
            assert(segs@[i as int]@ == ps[i as int]);
            assert(views(rest@.push(t)) =~= views(rest@).push(t@));
            assert(ps.subrange(2, i + 1) =~= ps.subrange(2, i as int).push(ps[i as int]));
        }
        rest.push(t);
        i = i + 1;
    }
    assert(ps.subrange(2, ps.len() as int) =~= ps.skip(2));
    let payload = join_on(&rest, ": ");
    match parse_json(payload.as_str()) {
        Some(message) => {
            let log = Log { date, execution_arn, message };
            Some(log)
        },
        None => None,
    }
}

} // verus!
