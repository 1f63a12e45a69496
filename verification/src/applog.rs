//! The lines of the log.
use vstd::prelude::*;

use crate::text::{owned, push_decimal};

verus! {

use crate::disk_info::texts;
use crate::text::decimal;

/// How large the log may grow before it is started anew.
pub const MAX_LOG_BYTES: u64 = 5_242_880;

/// A line of the log: the time and what there is to say.
pub open spec fn line_of(time: Seq<char>, msg: Seq<char>) -> Seq<char> {
    seq!['['] + time + "] "@ + msg
}

/// The line of the log that says `msg` at the given time.
pub fn log(time: &str, msg: &str) -> (r: String)
    ensures
        r@ == line_of(time@, msg@),
{
    let mut out = String::new();
    out.push('[');
    out.append(time);
    out.append("] ");
    out.append(msg);
    assert(out@ =~= line_of(time@, msg@));
    out
}

/// Whether to start the log anew, given how large it is, if there is one.
pub fn starts_anew(len: Option<u64>) -> (r: bool)
    ensures
        r == (len is Some && len->0 > 5 * 1024 * 1024),
{
    match len {
        Some(n) => n > MAX_LOG_BYTES,
        None => false,
    }
}

/// Many lines at once: those for the file, and the one for the console.
pub struct Batch {
    pub lines: Vec<String>,
    pub notice: String,
}

/// Many lines at one time: all of them for the file, and for the console only how many there are.
/// Nothing is written if there are none.
pub fn log_batch(time: &str, lines: &Vec<String>) -> (r: Option<Batch>)
    ensures
        match r {
            Some(b) => {
                &&& lines@.len() > 0
                &&& texts(b.lines@) == texts(lines@).map_values(|l: Seq<char>| line_of(time@, l))
                &&& b.notice@ == line_of(
                    time@,
                    "(批量写入 "@ + decimal(lines@.len()) + " 行到日志文件，控制台不逐行显示)"@,
                )
            },
            None => lines@.len() == 0,
        },
{
    if lines.len() == 0 {
        return None;
    }
    let ghost all = texts(lines@).map_values(|l: Seq<char>| line_of(time@, l));
    let mut out: Vec<String> = Vec::new();
    let mut i: usize = 0;
    assert(texts(out@) =~= all.take(0));
    while i < lines.len()
        invariant
            i <= lines@.len(),
            all == texts(lines@).map_values(|l: Seq<char>| line_of(time@, l)),
            texts(out@) =~= all.take(i as int),
        decreases lines@.len() - i,
    {
        let line = log(time, lines[i].as_str());
        let ghost before = texts(out@);
        out.push(line);
        assert(texts(out@) =~= before.push(line@));
        i = i + 1;
    }
    assert(all.take(i as int) =~= all);
    let mut msg = owned("(批量写入 ");
    push_decimal(&mut msg, lines.len() as u64);
    msg.append(" 行到日志文件，控制台不逐行显示)");
    Some(Batch { lines: out, notice: log(time, msg.as_str()) })
}

} // verus!
