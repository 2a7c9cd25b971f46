//! The judge protocol's lines as tokens: the assignment line, the skill
//! report, and the completion report.
use crate::resource::Resource;
use vstd::prelude::*;

verus! {

/// What the judge reports at the end of a day.
pub enum Report {
    /// The contest is over.
    End,
    /// These workers (zero-based) finished their tasks.
    Freed(Vec<usize>),
}

/// A completion report that breaks the protocol.
#[derive(Debug, PartialEq, Eq, Structural)]
pub enum ProtocolError {
    /// The line holds no token.
    Empty,
    /// The count is negative or disagrees with the number of ids.
    BadCount,
    /// An id names no worker.
    UnknownWorker,
}

/// The count agrees with the number of ids that follow it.
pub open spec fn count_matches(tokens: Seq<i64>) -> bool {
    tokens.len() > 0 && tokens[0] >= 0 && tokens.len() == tokens[0] + 1
}

/// Every id after the count names one of `m` workers, one-based.
pub open spec fn ids_in_range(tokens: Seq<i64>, m: nat) -> bool {
    forall|i: int| 1 <= i < tokens.len() ==> 1 <= #[trigger] tokens[i] <= m
}

/// Reads a completion report of `m` workers: `-1` ends the contest;
/// otherwise a count `C` and `C` one-based worker ids, returned zero-based.
pub fn read_report(tokens: &Vec<i64>, m: usize) -> (r: Result<Report, ProtocolError>)
    ensures
        tokens@.len() == 0 <==> r == Err::<Report, ProtocolError>(ProtocolError::Empty),
        tokens@.len() > 0 && tokens@[0] == -1 ==> r matches Ok(Report::End),
        tokens@.len() > 0 && tokens@[0] != -1 && !count_matches(tokens@) ==> r == Err::<
            Report,
            ProtocolError,
        >(ProtocolError::BadCount),
        tokens@.len() > 0 && tokens@[0] != -1 && count_matches(tokens@) && !ids_in_range(
            tokens@,
            m as nat,
        ) ==> r == Err::<Report, ProtocolError>(ProtocolError::UnknownWorker),
        tokens@.len() > 0 && tokens@[0] != -1 && count_matches(tokens@) && ids_in_range(
            tokens@,
            m as nat,
        ) ==> (r matches Ok(Report::Freed(ws)) && ws@.len() == tokens@.len() - 1 && forall|i: int|
            0 <= i < ws@.len() ==> #[trigger] ws@[i] == tokens@[i + 1] - 1),
{
    if tokens.len() == 0 {
        return Err(ProtocolError::Empty);
    }
    let c = tokens[0];
    if c == -1 {
        return Ok(Report::End);
    }
    if c < 0 || tokens.len() as u64 != (c as u64) + 1 {
        return Err(ProtocolError::BadCount);
    }
    let mut ws: Vec<usize> = Vec::new();
    let mut i: usize = 1;
    while i < tokens.len()
        invariant
            1 <= i <= tokens@.len(),
            count_matches(tokens@),
            tokens@[0] != -1,
            ws@.len() == i - 1,
            forall|j: int| 1 <= j < i ==> 1 <= #[trigger] tokens@[j] <= m,
            forall|j: int| 0 <= j < ws@.len() ==> #[trigger] ws@[j] == tokens@[j + 1] - 1,
        decreases tokens@.len() - i,
    {
        let id = tokens[i];
        if id < 1 || id as u64 > m as u64 {
            return Err(ProtocolError::UnknownWorker);
        }
        ws.push((id - 1) as usize);
        i = i + 1;
    }
    Ok(Report::Freed(ws))
}

/// The assignment line: the number of pairs, then each pair one-based as
/// worker and task.
pub fn assignment_tokens(started: &Vec<(usize, usize)>) -> (r: Vec<u64>)
    requires
        forall|i: int|
            0 <= i < started@.len() ==> (#[trigger] started@[i]).0 < u64::MAX && started@[i].1
                < u64::MAX,
    ensures
        r@.len() == 2 * started@.len() + 1,
        r@[0] == started@.len(),
        forall|i: int|
            0 <= i < started@.len() ==> r@[2 * i + 1] == (#[trigger] started@[i]).0 + 1 && r@[2 * i
                + 2] == started@[i].1 + 1,
{
    let mut r: Vec<u64> = Vec::new();
    r.push(started.len() as u64);
    let mut i: usize = 0;
    while i < started.len()
        invariant
            forall|j: int|
                0 <= j < started@.len() ==> (#[trigger] started@[j]).0 < u64::MAX && started@[j].1
                    < u64::MAX,
            i <= started@.len(),
            r@.len() == 2 * i + 1,
            r@[0] == started@.len(),
            forall|j: int|
                0 <= j < i ==> r@[2 * j + 1] == (#[trigger] started@[j]).0 + 1 && r@[2 * j + 2]
                    == started@[j].1 + 1,
        decreases started@.len() - i,
    {
        let (w, t) = started[i];
        r.push(w as u64 + 1);
        r.push(t as u64 + 1);
        i = i + 1;
    }
    r
}

/// The skill report of a worker: its one-based id, then its skill levels.
pub fn skill_tokens(res: &Resource) -> (r: Vec<i64>)
    requires
        res.id < i64::MAX,
    ensures
        r@.len() == res.skills@.len() + 1,
        r@[0] == res.id + 1,
        forall|k: int| 0 <= k < res.skills@.len() ==> r@[k + 1] == #[trigger] res.skills@[k],
{
    let mut r: Vec<i64> = Vec::new();
    r.push(res.id as i64 + 1);
    let mut k: usize = 0;
    while k < res.skills.len()
        invariant
            k <= res.skills@.len(),
            r@.len() == k + 1,
            r@[0] == res.id + 1,
            forall|j: int| 0 <= j < k ==> r@[j + 1] == #[trigger] res.skills@[j],
        decreases res.skills@.len() - k,
    {
        r.push(res.skills[k] as i64);
        k = k + 1;
    }
    r
}

} // verus!
