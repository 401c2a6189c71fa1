//! Properties of parsing and of the store, stated over the models and proved.
use vstd::prelude::*;

use crate::ingest::take_lines;
use crate::record::{arn_prefix, field_sep, json_of, line_arn, line_payload, line_record, pieces, trimmed, LogView};
use crate::store::{has_key, key_pos, unique_keys, upsert, upsert_all};
use crate::text::{has_prefix, sep_at, split_from};

verus! {

/// The first piece of `s` from `start` runs up to the first separator at or
/// after `start`, and is followed by it when more pieces come.
proof fn lemma_first_piece(s: Seq<char>, sep: Seq<char>, start: int, i: int)
    requires
        sep.len() > 0,
        0 <= start <= i <= s.len(),
        forall|j: int| start <= j < i ==> !sep_at(s, sep, j),
    ensures
        split_from(s, sep, start, i).len() >= 1,
        start + split_from(s, sep, start, i)[0].len() <= s.len(),
        split_from(s, sep, start, i)[0] == s.subrange(start, start + split_from(s, sep, start, i)[0].len()),
        forall|j: int| start <= j < start + split_from(s, sep, start, i)[0].len() ==> !sep_at(s, sep, j),
        split_from(s, sep, start, i).len() >= 2 ==> sep_at(s, sep, start + split_from(s, sep, start, i)[0].len()),
    decreases s.len() - i,
{
    if i >= s.len() {
    } else if sep_at(s, sep, i) {
        lemma_pieces_nonempty(s, sep, i + sep.len(), i + sep.len());
    } else {
        lemma_first_piece(s, sep, start, i + 1);
    }
}

proof fn lemma_pieces_nonempty(s: Seq<char>, sep: Seq<char>, start: int, i: int)
    requires
        sep.len() > 0,
        0 <= start <= i <= s.len(),
    ensures
        split_from(s, sep, start, i).len() >= 1,
    decreases s.len() - i,
{
    if i >= s.len() {
    } else if sep_at(s, sep, i) {
        lemma_pieces_nonempty(s, sep, i + sep.len(), i + sep.len());
    } else {
        lemma_pieces_nonempty(s, sep, start, i + 1);
    }
}

/// An accepted line's timestamp is the trimmed text before the first `": "`
/// (which contains no `": "` and is followed by one), and its execution
/// identifier starts with `arn:aws:states:`.
pub proof fn lemma_accepted_line(line: Seq<char>)
    requires
        line_record(line) is Some,
    ensures
        ({
            let r = line_record(line)->0;
            let before = pieces(line)[0];
            &&& r.date == trimmed(before)
            &&& line.subrange(0, before.len() as int) == before
            &&& sep_at(line, field_sep(), before.len() as int)
            &&& forall|j: int| 0 <= j < before.len() ==> !sep_at(line, field_sep(), j)
            &&& has_prefix(r.execution_arn, arn_prefix())
        }),
{
    reveal_strlit(": ");
    lemma_first_piece(line, field_sep(), 0, 0);
}

/// A line whose second piece, trimmed, does not start with `arn:aws:states:`
/// yields no record.
pub proof fn lemma_non_arn_rejected(line: Seq<char>)
    requires
        !has_prefix(line_arn(line), arn_prefix()),
    ensures
        line_record(line) is None,
{
}

/// A line whose payload text is not JSON yields no record.
pub proof fn lemma_bad_payload_rejected(line: Seq<char>)
    requires
        json_of(line_payload(line)) is None,
    ensures
        line_record(line) is None,
{
}

/// Inserting one record, position by position: the record with the same key
/// is replaced where it stands, the others stay, and a new key goes last.
pub proof fn lemma_upsert(s: Seq<LogView>, r: LogView)
    requires
        unique_keys(s),
    ensures
        unique_keys(upsert(s, r)),
        has_key(upsert(s, r), r.date),
        upsert(s, r).len() == if has_key(s, r.date) { s.len() } else { s.len() + 1 },
        forall|i: int| 0 <= i < s.len() ==> upsert(s, r)[i] == if s[i].date == r.date { r } else { s[i] },
        !has_key(s, r.date) ==> upsert(s, r)[s.len() as int] == r,
{
    let t = upsert(s, r);
    if has_key(s, r.date) {
        let p = key_pos(s, r.date);
        assert forall|i: int| 0 <= i < s.len() implies t[i] == if s[i].date == r.date { r } else { s[i] } by {
            if s[i].date == r.date {
                assert(i == p);
            }
        }
        assert(t[p] == r);
    } else {
        assert(t[s.len() as int] == r);
    }
}

/// Later insertions never move a record: each position keeps its key. The
/// store's order is the order in which keys first came, also after
/// overwrites.
pub proof fn lemma_positions_kept(s: Seq<LogView>, rs: Seq<LogView>)
    requires
        unique_keys(s),
    ensures
        unique_keys(upsert_all(s, rs)),
        upsert_all(s, rs).len() >= s.len(),
        forall|i: int| 0 <= i < s.len() ==> #[trigger] upsert_all(s, rs)[i].date == s[i].date,
        forall|j: int| 0 <= j < rs.len() ==> has_key(upsert_all(s, rs), #[trigger] rs[j].date),
    decreases rs.len(),
{
    if rs.len() > 0 {
        let rs0 = rs.drop_last();
        let r = rs.last();
        lemma_positions_kept(s, rs0);
        let t0 = upsert_all(s, rs0);
        lemma_upsert(t0, r);
        let t = upsert_all(s, rs);
        assert(t == upsert(t0, r));
        assert forall|i: int| 0 <= i < s.len() implies #[trigger] t[i].date == s[i].date by {
            assert(t0[i].date == s[i].date);
        }
        assert forall|j: int| 0 <= j < rs.len() implies has_key(t, #[trigger] rs[j].date) by {
            if j < rs0.len() {
                assert(rs0[j] == rs[j]);
                assert(has_key(t0, rs0[j].date));
                let p = choose|p: int| 0 <= p < t0.len() && t0[p].date == rs0[j].date;
                assert(t[p].date == t0[p].date);
            }
        }
    }
}

/// The last record of `rs` with key `k`.
pub open spec fn last_with(rs: Seq<LogView>, k: Seq<char>) -> Option<LogView>
    decreases rs.len(),
{
    if rs.len() == 0 {
        None
    } else if rs.last().date == k {
        Some(rs.last())
    } else {
        last_with(rs.drop_last(), k)
    }
}

/// After inserting `rs`, a key that `rs` holds carries the last record of
/// `rs` with that key.
proof fn lemma_last_wins(s: Seq<LogView>, rs: Seq<LogView>)
    requires
        unique_keys(s),
    ensures
        forall|i: int| 0 <= i < upsert_all(s, rs).len() && #[trigger] last_with(rs, upsert_all(s, rs)[i].date) is Some
            ==> upsert_all(s, rs)[i] == last_with(rs, upsert_all(s, rs)[i].date)->0,
    decreases rs.len(),
{
    if rs.len() > 0 {
        let rs0 = rs.drop_last();
        let r = rs.last();
        lemma_last_wins(s, rs0);
        lemma_positions_kept(s, rs0);
        let t0 = upsert_all(s, rs0);
        lemma_upsert(t0, r);
        let t = upsert_all(s, rs);
        assert forall|i: int| 0 <= i < t.len() && #[trigger] last_with(rs, t[i].date) is Some
            implies t[i] == last_with(rs, t[i].date)->0 by {
            if t[i].date != r.date {
                assert(i < t0.len());
                assert(t[i] == t0[i]);
                assert(last_with(rs, t[i].date) == last_with(rs0, t0[i].date));
            }
        }
    }
}

/// Inserting `rs` into a store that already holds all their keys replaces,
/// at each position whose key `rs` holds, the record by the last one of
/// `rs` with that key.
proof fn lemma_all_known(u: Seq<LogView>, rs: Seq<LogView>)
    requires
        unique_keys(u),
        forall|j: int| 0 <= j < rs.len() ==> has_key(u, #[trigger] rs[j].date),
    ensures
        upsert_all(u, rs).len() == u.len(),
        forall|i: int| 0 <= i < u.len() ==> #[trigger] upsert_all(u, rs)[i] == match last_with(rs, u[i].date) {
            Some(x) => x,
            None => u[i],
        },
    decreases rs.len(),
{
    if rs.len() > 0 {
        let rs0 = rs.drop_last();
        let r = rs.last();
        assert forall|j: int| 0 <= j < rs0.len() implies has_key(u, #[trigger] rs0[j].date) by {
            assert(rs0[j] == rs[j]);
        }
        lemma_all_known(u, rs0);
        lemma_positions_kept(u, rs0);
        let t0 = upsert_all(u, rs0);
        assert(has_key(u, rs[rs.len() - 1].date));
        let p = choose|p: int| 0 <= p < u.len() && u[p].date == r.date;
        assert(t0[p].date == u[p].date);
        assert(has_key(t0, r.date));
        lemma_upsert(t0, r);
        let t = upsert_all(u, rs);
        assert forall|i: int| 0 <= i < u.len() implies #[trigger] t[i] == match last_with(rs, u[i].date) {
            Some(x) => x,
            None => u[i],
        } by {
            assert(t0[i].date == u[i].date);
        }
    }
}

/// Inserting the same records again leaves the store as it was.
pub proof fn lemma_reinsert_idempotent(s: Seq<LogView>, rs: Seq<LogView>)
    requires
        unique_keys(s),
    ensures
        upsert_all(upsert_all(s, rs), rs) == upsert_all(s, rs),
{
    let t = upsert_all(s, rs);
    lemma_positions_kept(s, rs);
    lemma_last_wins(s, rs);
    lemma_all_known(t, rs);
    let t2 = upsert_all(t, rs);
    assert forall|i: int| 0 <= i < t.len() implies t2[i] == t[i] by {
        assert(t2[i] == match last_with(rs, t[i].date) {
            Some(x) => x,
            None => t[i],
        });
    }
    assert(t2 =~= t);
}

/// The records that lines yield, in order.
pub open spec fn records_of(ls: Seq<Seq<char>>) -> Seq<LogView>
    decreases ls.len(),
{
    if ls.len() == 0 {
        Seq::empty()
    } else {
        match line_record(ls.last()) {
            Some(r) => records_of(ls.drop_last()).push(r),
            None => records_of(ls.drop_last()),
        }
    }
}

/// Taking lines is inserting the records they yield.
pub proof fn lemma_lines_are_records(s: Seq<LogView>, ls: Seq<Seq<char>>)
    ensures
        take_lines(s, ls) == upsert_all(s, records_of(ls)),
    decreases ls.len(),
{
    if ls.len() > 0 {
        lemma_lines_are_records(s, ls.drop_last());
        let rs0 = records_of(ls.drop_last());
        if let Some(r) = line_record(ls.last()) {
            assert(rs0.push(r).drop_last() =~= rs0);
        }
    }
}

/// Taking the same lines `n` times in a row.
pub open spec fn take_lines_times(s: Seq<LogView>, ls: Seq<Seq<char>>, n: nat) -> Seq<LogView>
    decreases n,
{
    if n == 0 {
        s
    } else {
        take_lines(take_lines_times(s, ls, (n - 1) as nat), ls)
    }
}

/// Taking the same lines again, any number of times, leaves the store as
/// the first time left it.
pub proof fn lemma_lines_idempotent(s: Seq<LogView>, ls: Seq<Seq<char>>, n: nat)
    requires
        unique_keys(s),
        n >= 1,
    ensures
        take_lines_times(s, ls, n) == take_lines(s, ls),
    decreases n,
{
    if n > 1 {
        lemma_lines_idempotent(s, ls, (n - 1) as nat);
        let t = take_lines(s, ls);
        lemma_lines_are_records(s, ls);
        lemma_lines_are_records(t, ls);
        lemma_reinsert_idempotent(s, records_of(ls));
        assert(take_lines_times(s, ls, n) == take_lines(take_lines_times(s, ls, (n - 1) as nat), ls));
    } else {
        assert(take_lines_times(s, ls, 0) == s);
    }
}

} // verus!
