//! The build of all banks: the order in which they are built, and the report
//! of those that failed. A failure of one bank does not stop the others.

use vstd::prelude::*;
use vstd::seq_lib::*;
use vstd::string::*;
use vstd::utf8::*;
use crate::error::{BankError, ErrorKind};
use crate::names::{decimal, decimal_chars};
use crate::order::{
    lemma_lex_le_reflexive, lemma_lex_le_total, lemma_lex_le_transitive, path_le, path_le_exec,
};
use crate::text::string_of;

verus! {

/// Each text is at most every later one, in the order of paths.
pub open spec fn sorted_paths(s: Seq<Seq<char>>) -> bool {
    forall|i: int, j: int| 0 <= i <= j < s.len() ==> path_le(#[trigger] s[i], #[trigger] s[j])
}

/// The message of the error for a banks directory without banks.
pub open spec fn no_banks_message() -> Seq<char> {
    "No banks to build (generated/banks is empty)"@
}

/// The bank directories in the order in which they are built, which is the
/// order of their paths. Without any bank there is nothing to build, and
/// that is an error.
pub fn plan_batch(dirs: &Vec<String>) -> (r: Result<Vec<String>, BankError>)
    ensures
        match r {
            Ok(order) => dirs.len() > 0 && sorted_paths(order.deep_view())
                && order.deep_view().to_multiset() == dirs.deep_view().to_multiset(),
            Err(e) => dirs.len() == 0 && e.kind == ErrorKind::NotFound && e.message@
                == no_banks_message(),
        },
{
    if dirs.len() == 0 {
        return Err(
            BankError {
                kind: ErrorKind::NotFound,
                message: "No banks to build (generated/banks is empty)".to_string(),
            },
        );
    }
    let ghost all = dirs.deep_view();
    let mut order: Vec<String> = Vec::new();
    let mut i: usize = 0;
    assert(all.take(0) == Seq::<Seq<char>>::empty());
    assert(order.deep_view() == Seq::<Seq<char>>::empty());
    while i < dirs.len()
        invariant
            i <= dirs.len(),
            all == dirs.deep_view(),
            sorted_paths(order.deep_view()),
            order.deep_view().to_multiset() == all.take(i as int).to_multiset(),
        decreases dirs.len() - i,
    {
        let dir = dirs[i].clone();
        let mut p: usize = order.len();
        while p > 0 && !path_le_exec(order[p - 1].as_str(), dir.as_str())
            invariant
                p <= order.len(),
                forall|j: int| p <= j < order.len() ==> !path_le(#[trigger] order.deep_view()[j], dir@),
            decreases p,
        {
            p -= 1;
        }
        let ghost before = order.deep_view();
        order.insert(p, dir);
        proof {
            let after = order.deep_view();
            assert(after == before.insert(p as int, dir@));
            before.insert_ensures(p as int, dir@);
            assert forall|a: int, b: int| 0 <= a <= b < after.len() implies path_le(
                #[trigger] after[a],
                #[trigger] after[b],
            ) by {
                if b < p {
                    assert(after[a] == before[a] && after[b] == before[b]);
                } else if a > p {
                    assert(after[a] == before[a - 1] && after[b] == before[b - 1]);
                } else if a == p && b == p {
                    lemma_lex_le_reflexive(encode_utf8(dir@));
                } else if a == p {
                    assert(after[b] == before[b - 1]);
                    assert(!path_le(before[b - 1], dir@));
                    lemma_lex_le_total(encode_utf8(before[b - 1]), encode_utf8(dir@));
                } else if b == p {
                    assert(after[a] == before[a]);
                    assert(path_le(before[a], before[p - 1]));
                    lemma_lex_le_transitive(
                        encode_utf8(before[a]),
                        encode_utf8(before[p - 1]),
                        encode_utf8(dir@),
                    );
                } else {
                    assert(after[a] == before[a] && after[b] == before[b - 1]);
                }
            }
            to_multiset_insert(before, p as int, dir@);
            assert(all.take(i + 1) == all.take(i as int).push(dir@));
            to_multiset_build(all.take(i as int), dir@);
        }
        i += 1;
    }
    assert(all.take(dirs.len() as int) == all);
    Ok(order)
}

/// The parts in order, with `sep` between each two.
pub open spec fn join_text(parts: Seq<Seq<char>>, sep: Seq<char>) -> Seq<char>
    decreases parts.len(),
{
    if parts.len() == 0 {
        Seq::empty()
    } else if parts.len() == 1 {
        parts[0]
    } else {
        join_text(parts.drop_last(), sep) + sep + parts.last()
    }
}

/// The line that reports the failure of the bank at `path`.
pub open spec fn failure_line(path: Seq<char>, error: Seq<char>) -> Seq<char> {
    path + " -> "@ + error
}

/// The message of a batch in which banks failed: how many of how many, and
/// the line of each.
pub open spec fn failure_message(total: nat, failures: Seq<Seq<char>>) -> Seq<char> {
    "Some banks failed ("@ + decimal(failures.len()) + "/"@ + decimal(total) + "):\n - "@ + join_text(
        failures,
        "\n - "@,
    )
}

/// The state of a batch: how many banks it has, and the lines of those that
/// failed so far.
#[derive(Debug, Clone, PartialEq, Eq)]
pub struct BatchReport {
    pub total: usize,
    pub failures: Vec<String>,
}

impl BatchReport {
    /// The report of a batch of `total` banks, none of which has failed yet.
    pub fn new(total: usize) -> (report: BatchReport)
        ensures
            report.total == total,
            report.failures.deep_view() == Seq::<Seq<char>>::empty(),
    {
        let report = BatchReport { total, failures: Vec::new() };
        assert(report.failures.deep_view() == Seq::<Seq<char>>::empty());
        report
    }

    /// Takes note of how the build of the bank at `path` ended: a failure
    /// adds its line, a success changes nothing.
    pub fn record(&mut self, path: &str, outcome: &Result<(), BankError>)
        ensures
            final(self).total == old(self).total,
            final(self).failures.deep_view() == match outcome {
                Ok(_) => old(self).failures.deep_view(),
                Err(e) => old(self).failures.deep_view().push(failure_line(path@, e.message@)),
            },
    {
        match outcome {
            Ok(_) => {},
            Err(e) => {
                let mut line = path.to_string();
                line.append(" -> ");
                line.append(e.message.as_str());
                let ghost before = self.failures.deep_view();
                self.failures.push(line);
                assert(self.failures.deep_view() == before.push(line@));
            },
        }
    }

    /// How the batch ended: the number of banks built where none failed; else
    /// the message that names each failure.
    pub fn finish(&self) -> (r: Result<usize, String>)
        ensures
            match r {
                Ok(built) => self.failures.len() == 0 && built == self.total,
                Err(message) => self.failures.len() > 0 && message@ == failure_message(
                    self.total as nat,
                    self.failures.deep_view(),
                ),
            },
    {
        if self.failures.len() == 0 {
            return Ok(self.total);
        }
        let ghost lines = self.failures.deep_view();
        let mut message = "Some banks failed (".to_string();
        message.append(string_of(&decimal_chars(self.failures.len() as u128)).as_str());
        message.append("/");
        message.append(string_of(&decimal_chars(self.total as u128)).as_str());
        message.append("):\n - ");
        let ghost head = message@;
        message.append(self.failures[0].as_str());
        assert(lines.take(1) == seq![lines[0]]);
        let mut i: usize = 1;
        while i < self.failures.len()
            invariant
                1 <= i <= self.failures.len(),
                lines == self.failures.deep_view(),
                message@ == head + join_text(lines.take(i as int), "\n - "@),
            decreases self.failures.len() - i,
        {
            let ghost before = message@;
            message.append("\n - ");
            message.append(self.failures[i].as_str());
            proof {
                let done = lines.take(i as int);
                let next = lines.take(i + 1);
                assert(next.drop_last() == done);
                assert(next.last() == lines[i as int]);
                assert(message@ == head + (join_text(done, "\n - "@) + "\n - "@ + lines[i as int]));
            }
            i += 1;
        }
        assert(lines.take(self.failures.len() as int) == lines);
        Err(message)
    }
}

} // verus!
